use exprparse::ast::Expr;
use exprparse::diag::Keyword;
use exprparse::diag::Label;
use exprparse::diag::Reason;
use exprparse::parse::parser;

fn num(v: u64) -> Expr {
    Expr::Num(v)
}

fn reference(name: &str) -> Expr {
    Expr::Reference(name.as_bytes().to_vec())
}

fn neg(e: Expr) -> Expr {
    Expr::Neg(Box::new(e))
}

fn add(a: Expr, b: Expr) -> Expr {
    Expr::Add(Box::new(a), Box::new(b))
}

fn sub(a: Expr, b: Expr) -> Expr {
    Expr::Sub(Box::new(a), Box::new(b))
}

fn mul(a: Expr, b: Expr) -> Expr {
    Expr::Mul(Box::new(a), Box::new(b))
}

fn div(a: Expr, b: Expr) -> Expr {
    Expr::Div(Box::new(a), Box::new(b))
}

fn binding(name: &str, value: Expr) -> Expr {
    Expr::Binding { name: name.as_bytes().to_vec(), value: Box::new(value) }
}

fn call(name: &str, args: Vec<Expr>) -> Expr {
    Expr::Call(name.as_bytes().to_vec(), args)
}

fn lambda(arg: &str, body: Expr) -> Expr {
    Expr::Lambda { arg: arg.as_bytes().to_vec(), body: Box::new(body) }
}

fn ok(src: &str) -> Expr {
    let (tree, errs) = parser(src.as_bytes());
    assert!(errs.is_empty(), "unexpected errors for {:?}: {:?}", src, errs);
    tree.expect("no tree")
}

fn err(src: &str) -> Vec<exprparse::diag::ParseError> {
    let (tree, errs) = parser(src.as_bytes());
    assert!(tree.is_none(), "unexpected tree for {:?}: {:?}", src, tree);
    assert!(!errs.is_empty(), "no errors for {:?}", src);
    errs
}

#[test]
fn digit_literal() {
    assert_eq!(ok("42"), num(42));
}

#[test]
fn digit_literal_padded() {
    assert_eq!(ok("  007  "), num(7));
}

#[test]
fn double_negation() {
    assert_eq!(ok("--5"), neg(neg(num(5))));
}

#[test]
fn subtraction_is_left_associative() {
    assert_eq!(ok("1 - 2 - 3"), sub(sub(num(1), num(2)), num(3)));
}

#[test]
fn product_binds_tighter_than_sum() {
    assert_eq!(ok("2 + 3 * 4"), add(num(2), mul(num(3), num(4))));
}

#[test]
fn division_and_multiplication_left_to_right() {
    assert_eq!(ok("8 / 4 * 2"), mul(div(num(8), num(4)), num(2)));
}

#[test]
fn call_with_two_arguments() {
    assert_eq!(ok("f x y"), call("f", vec![reference("x"), reference("y")]));
}

#[test]
fn bare_identifier_is_a_reference_not_a_call() {
    assert_eq!(ok("f"), reference("f"));
}

#[test]
fn nested_call_needs_parentheses() {
    assert_eq!(
        ok("f (g x) y"),
        call("f", vec![call("g", vec![reference("x")]), reference("y")]),
    );
}

#[test]
fn lambda_with_sum_body() {
    assert_eq!(ok("x: x + 1"), lambda("x", add(reference("x"), num(1))));
}

#[test]
fn lambdas_nest_to_the_right() {
    assert_eq!(ok("x: y: x"), lambda("x", lambda("y", reference("x"))));
}

#[test]
fn let_in_preserves_binding_order() {
    assert_eq!(
        ok("let a = 1; b = 2; in a + b"),
        Expr::LetIn {
            bindings: vec![binding("a", num(1)), binding("b", num(2))],
            body: Box::new(add(reference("a"), reference("b"))),
        },
    );
}

#[test]
fn let_with_no_bindings() {
    assert_eq!(
        ok("let in 5"),
        Expr::LetIn { bindings: vec![], body: Box::new(num(5)) },
    );
}

#[test]
fn parenthesized_grouping() {
    assert_eq!(ok(" 2 * ( 3 + 4 ) "), mul(num(2), add(num(3), num(4))));
}

#[test]
fn minus_after_minus_is_subtraction_of_a_negation() {
    assert_eq!(ok("2--3"), sub(num(2), neg(num(3))));
}

#[test]
fn unary_minus_inside_product() {
    assert_eq!(ok("-2 * 3"), mul(neg(num(2)), num(3)));
}

#[test]
fn missing_binding_value_is_reported_in_context() {
    let errs = err("let a = ; in a");
    assert_eq!(errs.len(), 1);
    let e = &errs[0];
    // the primary span covers the unexpected `;`
    assert_eq!(e.span.start, 8);
    assert_eq!(e.span.end, 9);
    let labels: Vec<Label> = e.contexts.iter().map(|c| c.label).collect();
    assert!(labels.contains(&Label::Binding), "contexts: {:?}", e.contexts);
    assert!(labels.contains(&Label::LetIn), "contexts: {:?}", e.contexts);
}

#[test]
fn missing_semicolon_is_reported_in_context() {
    let errs = err("let a = 1 in a");
    assert_eq!(errs.len(), 1);
    let e = &errs[0];
    assert_eq!(e.reason, Reason::ExpectedChar(b';'));
    assert_eq!(e.span.start, 10);
    let labels: Vec<Label> = e.contexts.iter().map(|c| c.label).collect();
    assert!(labels.contains(&Label::Binding));
    assert!(labels.contains(&Label::LetIn));
}

#[test]
fn unclosed_parenthesis() {
    let errs = err("(1");
    assert_eq!(errs.len(), 1);
    assert_eq!(errs[0].reason, Reason::ExpectedChar(b')'));
    assert_eq!(errs[0].span.start, 2);
}

#[test]
fn empty_input_is_an_error() {
    let errs = err("");
    assert_eq!(errs.len(), 1);
}

#[test]
fn dangling_operator_is_an_error() {
    let errs = err("1 +");
    assert_eq!(errs.len(), 1);
    assert_eq!(errs[0].reason, Reason::UnexpectedEnd);
}

#[test]
fn trailing_garbage_is_an_error() {
    let errs = err("1 2");
    assert_eq!(errs.len(), 1);
    assert_eq!(errs[0].reason, Reason::UnexpectedChar(b'2'));
    assert_eq!(errs[0].span.start, 2);
    assert_eq!(errs[0].span.end, 3);
}

#[test]
fn let_without_in_is_an_error() {
    let errs = err("let a = 1;");
    assert_eq!(errs.len(), 1);
    assert_eq!(errs[0].reason, Reason::ExpectedKeyword(Keyword::In));
    assert_eq!(errs[0].span.start, 10);
    let labels: Vec<Label> = errs[0].contexts.iter().map(|c| c.label).collect();
    assert!(labels.contains(&Label::LetIn));
}

#[test]
fn deeply_nested_parentheses() {
    assert_eq!(ok("((((1))))"), num(1));
}

#[test]
fn spaced_minus_signs_nest() {
    assert_eq!(ok(" - - 5 "), neg(neg(num(5))));
}

#[test]
fn nested_let_in_body() {
    assert_eq!(
        ok("let a = 1; in let b = 2; in b"),
        Expr::LetIn {
            bindings: vec![binding("a", num(1))],
            body: Box::new(Expr::LetIn {
                bindings: vec![binding("b", num(2))],
                body: Box::new(reference("b")),
            }),
        },
    );
}

#[test]
fn binding_value_may_be_a_lambda() {
    assert_eq!(
        ok("let f = x: x; in f 1"),
        Expr::LetIn {
            bindings: vec![binding("f", lambda("x", reference("x")))],
            body: Box::new(call("f", vec![num(1)])),
        },
    );
}

#[test]
fn oversized_literal_is_an_invalid_number() {
    // 39 digits: far past the largest representable value
    let errs = err("999999999999999999999999999999999999999");
    assert_eq!(errs.len(), 1);
    assert_eq!(errs[0].reason, Reason::InvalidNumber);
    assert_eq!(errs[0].span.start, 0);
    assert_eq!(errs[0].span.end, 39);
}

#[test]
fn largest_literal_parses() {
    assert_eq!(ok("18446744073709551615"), num(u64::MAX));
}

#[test]
fn smallest_oversized_literal_is_rejected() {
    let errs = err("18446744073709551616");
    assert_eq!(errs[0].reason, Reason::InvalidNumber);
}

#[test]
fn reparsing_a_good_input_gives_an_identical_tree() {
    let src = "let a = 1; in f (a + 2) x";
    let first = parser(src.as_bytes());
    let second = parser(src.as_bytes());
    assert_eq!(first, second);
}

#[test]
fn reparsing_a_bad_input_gives_identical_errors() {
    let src = "let a = ; in a";
    let first = parser(src.as_bytes());
    let second = parser(src.as_bytes());
    assert_eq!(first, second);
}

#[test]
fn keyword_alone_is_a_reference() {
    assert_eq!(ok("let"), reference("let"));
    assert_eq!(ok("in"), reference("in"));
}

#[test]
fn call_argument_minus_binds_to_the_whole_call() {
    // a minus after arguments is subtraction, not a negative argument
    assert_eq!(ok("f x - 1"), sub(call("f", vec![reference("x")]), num(1)));
}

#[test]
fn lambda_wins_over_reference_at_the_top() {
    // `x: ...` is a lambda, never a lone reference with trailing input
    assert_eq!(ok("x: 1"), lambda("x", num(1)));
}
