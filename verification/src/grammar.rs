//! The grammar, as mathematical functions over byte sequences.
//!
//! Each `sp_*` function takes the source and a position and returns the
//! parsed tree together with the position just past it, or `None` where the
//! rule does not match. The executable parser in `parse` is proved to agree
//! with these functions, so they are the single place where the language is
//! defined:
//!
//! ```text
//! decl     := let_in | lambda | sum
//! let_in   := "let" binding* "in" decl
//! binding  := ident "=" decl ";"
//! lambda   := ident ":" decl
//! sum      := product (("+"|"-") product)*
//! product  := unary (("*"|"/") unary)*
//! unary    := "-"* atom
//! atom     := number | "(" sum ")" | ident arg* (a call when >= 1 args)
//! arg      := number | "(" sum ")" | ident
//! ```
//!
//! Whitespace may stand before any token. Alternatives are tried in the
//! order written, first match wins. A few branches guard a recursive call
//! with a position check (`j < m` and the like): every rule consumes at
//! least one byte when it matches — `laws::lemma_decl_advances` proves it —
//! so the guards never refuse; they only make the termination of the
//! recursion evident.

use vstd::prelude::*;
use crate::ast::SpecExpr;

verus! {

pub open spec fn is_ws(c: u8) -> bool {
    c == ' ' as u8 || c == '\t' as u8 || c == '\n' as u8 || c == '\r' as u8
}

pub open spec fn is_digit(c: u8) -> bool {
    '0' as u8 <= c && c <= '9' as u8
}

pub open spec fn is_ident_start(c: u8) -> bool {
    ('a' as u8 <= c && c <= 'z' as u8) || ('A' as u8 <= c && c <= 'Z' as u8) || c == '_' as u8
}

pub open spec fn is_ident_cont(c: u8) -> bool {
    is_ident_start(c) || is_digit(c)
}

/// How many whitespace bytes stand at `i`.
pub open spec fn ws_count(s: Seq<u8>, i: nat) -> nat
    decreases s.len() - i,
{
    if i < s.len() && is_ws(s[i as int]) {
        ws_count(s, i + 1) + 1
    } else {
        0
    }
}

/// The first position at or after `i` that does not hold whitespace.
pub open spec fn skip(s: Seq<u8>, i: nat) -> nat {
    i + ws_count(s, i)
}

/// How many decimal digits stand at `i`.
pub open spec fn digit_count(s: Seq<u8>, i: nat) -> nat
    decreases s.len() - i,
{
    if i < s.len() && is_digit(s[i as int]) {
        digit_count(s, i + 1) + 1
    } else {
        0
    }
}

/// How many identifier bytes stand at `i`.
pub open spec fn ident_count(s: Seq<u8>, i: nat) -> nat
    decreases s.len() - i,
{
    if i < s.len() && is_ident_cont(s[i as int]) {
        ident_count(s, i + 1) + 1
    } else {
        0
    }
}

/// The value of the decimal digits in `s[i..j)`.
pub open spec fn digits_value(s: Seq<u8>, i: nat, j: nat) -> nat
    decreases j,
{
    if i < j && j <= s.len() {
        (digits_value(s, i, (j - 1) as nat) * 10 + (s[j - 1 as int] as int - '0' as u8)) as nat
    } else {
        0
    }
}

/// The keyword `let` stands at `k`, with a non-identifier byte (or the end)
/// after it.
pub open spec fn kw_let_at(s: Seq<u8>, k: nat) -> bool {
    &&& k + 3 <= s.len()
    &&& s[k as int] == 'l' as u8
    &&& s[k + 1 as int] == 'e' as u8
    &&& s[k + 2 as int] == 't' as u8
    &&& (k + 3 == s.len() || !is_ident_cont(s[k + 3 as int]))
}

/// The keyword `in` stands at `k`, with a non-identifier byte (or the end)
/// after it.
pub open spec fn kw_in_at(s: Seq<u8>, k: nat) -> bool {
    &&& k + 2 <= s.len()
    &&& s[k as int] == 'i' as u8
    &&& s[k + 1 as int] == 'n' as u8
    &&& (k + 2 == s.len() || !is_ident_cont(s[k + 2 as int]))
}

/// A call argument: a number, a parenthesized expression, or a bare
/// identifier. A bare identifier in argument position is always a
/// `Reference`; a call as an argument must be parenthesized.
pub open spec fn sp_arg(s: Seq<u8>, i: nat) -> Option<(SpecExpr, nat)>
    decreases s.len() - i, 0int,
{
    let k = skip(s, i);
    if k < s.len() && is_digit(s[k as int]) {
        let e = k + digit_count(s, k);
        let v = digits_value(s, k, e);
        if v <= u64::MAX {
            Some((SpecExpr::Num(v), e))
        } else {
            None
        }
    } else if k < s.len() && s[k as int] == '(' as u8 {
        match sp_sum(s, k + 1) {
            Some((e, j)) => {
                let m = skip(s, j);
                if m < s.len() && s[m as int] == ')' as u8 {
                    Some((e, m + 1))
                } else {
                    None
                }
            },
            None => None,
        }
    } else if k < s.len() && is_ident_start(s[k as int]) {
        let e = k + ident_count(s, k);
        if e <= s.len() {
            Some((SpecExpr::Reference(s.subrange(k as int, e as int)), e))
        } else {
            None
        }
    } else {
        None
    }
}

/// Zero or more call arguments, greedily, with the position just past the
/// last one.
pub open spec fn sp_args(s: Seq<u8>, i: nat) -> (Seq<SpecExpr>, nat)
    decreases s.len() - i, 1int,
{
    match sp_arg(s, i) {
        Some((a, j)) => if i < j && j <= s.len() {
            let (rest, end) = sp_args(s, j);
            (seq![a] + rest, end)
        } else {
            (seq![a], j)
        },
        None => (Seq::empty(), i),
    }
}

/// An atom: a number, a parenthesized expression, a call (an identifier
/// followed by one or more arguments), or a bare identifier.
pub open spec fn sp_atom(s: Seq<u8>, i: nat) -> Option<(SpecExpr, nat)>
    decreases s.len() - i, 2int,
{
    let k = skip(s, i);
    if k < s.len() && is_digit(s[k as int]) {
        let e = k + digit_count(s, k);
        let v = digits_value(s, k, e);
        if v <= u64::MAX {
            Some((SpecExpr::Num(v), e))
        } else {
            None
        }
    } else if k < s.len() && s[k as int] == '(' as u8 {
        match sp_sum(s, k + 1) {
            Some((e, j)) => {
                let m = skip(s, j);
                if m < s.len() && s[m as int] == ')' as u8 {
                    Some((e, m + 1))
                } else {
                    None
                }
            },
            None => None,
        }
    } else if k < s.len() && is_ident_start(s[k as int]) {
        let e = k + ident_count(s, k);
        if e <= s.len() {
            let name = s.subrange(k as int, e as int);
            let (args, j) = sp_args(s, e);
            if args.len() >= 1 {
                Some((SpecExpr::Call(name, args), j))
            } else {
                Some((SpecExpr::Reference(name), e))
            }
        } else {
            None
        }
    } else {
        None
    }
}

/// Zero or more prefix minus signs, then an atom; the signs nest from the
/// inside out.
pub open spec fn sp_unary(s: Seq<u8>, i: nat) -> Option<(SpecExpr, nat)>
    decreases s.len() - i, 3int,
{
    let k = skip(s, i);
    if k < s.len() && s[k as int] == '-' as u8 {
        match sp_unary(s, k + 1) {
            Some((e, j)) => Some((SpecExpr::Neg(Box::new(e)), j)),
            None => None,
        }
    } else {
        sp_atom(s, i)
    }
}

/// Left fold of `*` and `/` steps onto `acc`, starting at `j`.
pub open spec fn sp_product_tail(s: Seq<u8>, acc: SpecExpr, j: nat) -> Option<(SpecExpr, nat)>
    decreases s.len() - j, 4int,
{
    let k = skip(s, j);
    if k < s.len() && (s[k as int] == '*' as u8 || s[k as int] == '/' as u8) {
        match sp_unary(s, k + 1) {
            Some((r, m)) => {
                let step = if s[k as int] == '*' as u8 {
                    SpecExpr::Mul(Box::new(acc), Box::new(r))
                } else {
                    SpecExpr::Div(Box::new(acc), Box::new(r))
                };
                if j < m && m <= s.len() {
                    sp_product_tail(s, step, m)
                } else {
                    None
                }
            },
            None => None,
        }
    } else {
        Some((acc, j))
    }
}

/// A product: left-associative `*` and `/` over unaries.
pub open spec fn sp_product(s: Seq<u8>, i: nat) -> Option<(SpecExpr, nat)>
    decreases s.len() - i, 5int,
{
    match sp_unary(s, i) {
        Some((e, j)) => if i < j && j <= s.len() {
            sp_product_tail(s, e, j)
        } else {
            None
        },
        None => None,
    }
}

/// Left fold of `+` and `-` steps onto `acc`, starting at `j`.
pub open spec fn sp_sum_tail(s: Seq<u8>, acc: SpecExpr, j: nat) -> Option<(SpecExpr, nat)>
    decreases s.len() - j, 6int,
{
    let k = skip(s, j);
    if k < s.len() && (s[k as int] == '+' as u8 || s[k as int] == '-' as u8) {
        match sp_product(s, k + 1) {
            Some((r, m)) => {
                let step = if s[k as int] == '+' as u8 {
                    SpecExpr::Add(Box::new(acc), Box::new(r))
                } else {
                    SpecExpr::Sub(Box::new(acc), Box::new(r))
                };
                if j < m && m <= s.len() {
                    sp_sum_tail(s, step, m)
                } else {
                    None
                }
            },
            None => None,
        }
    } else {
        Some((acc, j))
    }
}

/// A sum: left-associative `+` and `-` over products. This is the whole
/// expression grammar.
pub open spec fn sp_sum(s: Seq<u8>, i: nat) -> Option<(SpecExpr, nat)>
    decreases s.len() - i, 7int,
{
    match sp_product(s, i) {
        Some((e, j)) => if i < j && j <= s.len() {
            sp_sum_tail(s, e, j)
        } else {
            None
        },
        None => None,
    }
}

/// A binding: `ident "=" decl ";"`.
pub open spec fn sp_binding(s: Seq<u8>, i: nat) -> Option<(SpecExpr, nat)>
    decreases s.len() - i, 8int,
{
    let k = skip(s, i);
    if k < s.len() && is_ident_start(s[k as int]) {
        let e = k + ident_count(s, k);
        let name = s.subrange(k as int, e as int);
        let m = skip(s, e);
        if m < s.len() && s[m as int] == '=' as u8 {
            match sp_decl(s, m + 1) {
                Some((v, j)) => {
                    let t = skip(s, j);
                    if t < s.len() && s[t as int] == ';' as u8 {
                        Some((SpecExpr::Binding { name, value: Box::new(v) }, t + 1))
                    } else {
                        None
                    }
                },
                None => None,
            }
        } else {
            None
        }
    } else {
        None
    }
}

/// Zero or more bindings, greedily, with the position just past the last
/// one.
pub open spec fn sp_bindings(s: Seq<u8>, i: nat) -> (Seq<SpecExpr>, nat)
    decreases s.len() - i, 9int,
{
    match sp_binding(s, i) {
        Some((b, j)) => if i < j && j <= s.len() {
            let (rest, end) = sp_bindings(s, j);
            (seq![b] + rest, end)
        } else {
            (seq![b], j)
        },
        None => (Seq::empty(), i),
    }
}

/// A let-in form: `"let" binding* "in" decl`.
pub open spec fn sp_let_in(s: Seq<u8>, i: nat) -> Option<(SpecExpr, nat)>
    decreases s.len() - i, 10int,
{
    let k = skip(s, i);
    if kw_let_at(s, k) {
        let (bindings, jb) = sp_bindings(s, k + 3);
        if jb >= k + 3 {
            let m = skip(s, jb);
            if kw_in_at(s, m) {
                match sp_decl(s, m + 2) {
                    Some((body, j)) => Some((
                        SpecExpr::LetIn { bindings, body: Box::new(body) },
                        j,
                    )),
                    None => None,
                }
            } else {
                None
            }
        } else {
            None
        }
    } else {
        None
    }
}

/// A lambda form: `ident ":" decl`.
pub open spec fn sp_lambda(s: Seq<u8>, i: nat) -> Option<(SpecExpr, nat)>
    decreases s.len() - i, 10int,
{
    let k = skip(s, i);
    if k < s.len() && is_ident_start(s[k as int]) {
        let e = k + ident_count(s, k);
        let arg = s.subrange(k as int, e as int);
        let m = skip(s, e);
        if m < s.len() && s[m as int] == ':' as u8 {
            match sp_decl(s, m + 1) {
                Some((body, j)) => Some((SpecExpr::Lambda { arg, body: Box::new(body) }, j)),
                None => None,
            }
        } else {
            None
        }
    } else {
        None
    }
}

/// A declaration, the top rule: a let-in, else a lambda, else an
/// expression — tried in that order, first match wins.
pub open spec fn sp_decl(s: Seq<u8>, i: nat) -> Option<(SpecExpr, nat)>
    decreases s.len() - i, 11int,
{
    match sp_let_in(s, i) {
        Some(r) => Some(r),
        None => match sp_lambda(s, i) {
            Some(r) => Some(r),
            None => sp_sum(s, i),
        },
    }
}

/// The whole input as one declaration: what the parser returns, when it
/// returns a tree. `None` means the input is malformed and the parser
/// reports at least one error.
pub open spec fn sp_parse(s: Seq<u8>) -> Option<SpecExpr> {
    match sp_decl(s, 0) {
        Some((e, j)) => if skip(s, j) == s.len() {
            Some(e)
        } else {
            None
        },
        None => None,
    }
}

/// The whitespace run at `i` stays in bounds, holds only whitespace, and is
/// maximal.
pub proof fn lemma_ws_run(s: Seq<u8>, i: nat)
    requires
        i <= s.len(),
    ensures
        i + ws_count(s, i) <= s.len(),
        forall|m: nat| i <= m < i + ws_count(s, i) ==> is_ws(s[m as int]),
        i + ws_count(s, i) < s.len() ==> !is_ws(s[(i + ws_count(s, i)) as int]),
    decreases s.len() - i,
{
    if i < s.len() && is_ws(s[i as int]) {
        lemma_ws_run(s, i + 1);
    }
}

/// The digit run at `i` stays in bounds, holds only digits, and is maximal.
pub proof fn lemma_digit_run(s: Seq<u8>, i: nat)
    requires
        i <= s.len(),
    ensures
        i + digit_count(s, i) <= s.len(),
        forall|m: nat| i <= m < i + digit_count(s, i) ==> is_digit(s[m as int]),
        i + digit_count(s, i) < s.len() ==> !is_digit(s[(i + digit_count(s, i)) as int]),
    decreases s.len() - i,
{
    if i < s.len() && is_digit(s[i as int]) {
        lemma_digit_run(s, i + 1);
    }
}

/// The identifier run at `i` stays in bounds, holds only identifier bytes,
/// and is maximal.
pub proof fn lemma_ident_run(s: Seq<u8>, i: nat)
    requires
        i <= s.len(),
    ensures
        i + ident_count(s, i) <= s.len(),
        forall|m: nat| i <= m < i + ident_count(s, i) ==> is_ident_cont(s[m as int]),
        i + ident_count(s, i) < s.len() ==> !is_ident_cont(s[(i + ident_count(s, i)) as int]),
    decreases s.len() - i,
{
    if i < s.len() && is_ident_cont(s[i as int]) {
        lemma_ident_run(s, i + 1);
    }
}

/// Over a digit run, the value of a longer prefix is at least the value of
/// a shorter one: once a prefix overflows, the whole literal does.
pub proof fn lemma_digits_value_mono(s: Seq<u8>, k: nat, j1: nat, j2: nat)
    requires
        k <= j1 <= j2 <= s.len(),
        forall|m: nat| k <= m < j2 ==> is_digit(s[m as int]),
    ensures
        digits_value(s, k, j1) <= digits_value(s, k, j2),
    decreases j2,
{
    if j1 < j2 {
        lemma_digits_value_mono(s, k, j1, (j2 - 1) as nat);
        assert(is_digit(s[j2 - 1 as int]));
        assert(digits_value(s, k, (j2 - 1) as nat) * 10 >= digits_value(s, k, (j2 - 1) as nat));
    }
}

} // verus!
