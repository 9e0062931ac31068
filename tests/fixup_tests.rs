use opfixup::calculate_poset;
use opfixup::fixup;
use opfixup::parse;
use opfixup::Expr;
use opfixup::OpAssoc::{Left, Non, Right};
use opfixup::OpError;
use opfixup::OpInfo;
use opfixup::OpKind::{Infix, Postfix, Prefix};
use opfixup::OpMap;
use opfixup::Order::{Above, Below, Equal};
use opfixup::ParseError;
use opfixup::Token;

fn var(x: &str) -> Expr {
    Expr::var(x)
}

fn inf(op: &str, l: Expr, r: Expr) -> Expr {
    Expr::infixop(op, l, r)
}

fn prec(m: &OpMap, name: &str) -> Option<usize> {
    m.get(&name.to_string()).unwrap().prec()
}

fn resolve(src: &str, m: &OpMap) -> Result<Expr, OpError> {
    fixup(parse(src).unwrap().unwrap(), m)
}

fn arith() -> OpMap {
    calculate_poset(vec![
        OpInfo::new("+", Infix(Left), vec![]),
        OpInfo::new("*", Infix(Left), vec![Above("+".to_string())]),
        OpInfo::new("::", Infix(Right), vec![]),
        OpInfo::new("=", Infix(Non), vec![Below("+".to_string())]),
        OpInfo::new("-", Prefix, vec![]),
        OpInfo::new("!", Postfix, vec![]),
    ])
    .unwrap()
}

#[test]
fn test() {
    let e = Expr::infixop("+", Expr::var("a"), Expr::var("b"));
    let parsed = parse("a + b").unwrap().unwrap();
    assert_eq!(parsed, e);
}

#[test]
fn provisional_parse_nests_right() {
    let e = parse("a + b * c").unwrap().unwrap();
    assert_eq!(e, inf("+", var("a"), inf("*", var("b"), var("c"))));
}

#[test]
fn parse_prefix_postfix_and_parens() {
    let e = parse("- (a) !").unwrap().unwrap();
    assert_eq!(
        e,
        Expr::PostfixOp("!".to_string(), Box::new(Expr::PrefixOp("-".to_string(), Box::new(var("a")))))
    );
    let e = parse("(a !) + b").unwrap().unwrap();
    assert_eq!(
        e,
        inf("+", Expr::PostfixOp("!".to_string(), Box::new(var("a"))), var("b"))
    );
}

#[test]
fn parse_empty_and_comment_only() {
    assert!(parse("").is_none());
    assert!(parse("   \t\n").is_none());
    assert!(parse("/ only a comment").is_none());
}

#[test]
fn parse_comment_then_expression() {
    let e = parse("/ note\nx1 <> y").unwrap().unwrap();
    assert_eq!(e, inf("<>", var("x1"), var("y")));
}

#[test]
fn parse_unexpected_character() {
    assert_eq!(parse("a , b"), Some(Err(ParseError::UnexpectedCharacter(','))));
    assert_eq!(parse(","), Some(Err(ParseError::UnexpectedCharacter(','))));
}

#[test]
fn parse_trailing_input() {
    assert_eq!(parse("a b"), Some(Err(ParseError::TrailingInput(Token::Var("b".to_string())))));
    assert_eq!(parse("a )"), Some(Err(ParseError::TrailingInput(Token::RParen))));
}

#[test]
fn parse_unexpected_token() {
    assert_eq!(parse(")"), Some(Err(ParseError::UnexpectedToken(Token::RParen))));
    assert_eq!(parse("(a"), Some(Err(ParseError::UnexpectedToken(Token::Eof))));
}

#[test]
fn left_associative_chain() {
    let m = arith();
    assert_eq!(resolve("a + b + c", &m), Ok(inf("+", inf("+", var("a"), var("b")), var("c"))));
}

#[test]
fn right_associative_chain() {
    let m = arith();
    assert_eq!(resolve("a :: b :: c", &m), Ok(inf("::", var("a"), inf("::", var("b"), var("c")))));
}

#[test]
fn tighter_operator_on_the_right() {
    let m = arith();
    assert_eq!(resolve("a + b * c", &m), Ok(inf("+", var("a"), inf("*", var("b"), var("c")))));
}

#[test]
fn tighter_operator_on_the_left() {
    let m = arith();
    assert_eq!(resolve("a * b + c", &m), Ok(inf("+", inf("*", var("a"), var("b")), var("c"))));
}

#[test]
fn three_levels() {
    let m = arith();
    assert_eq!(
        resolve("a = b + c * d", &m),
        Ok(inf("=", var("a"), inf("+", var("b"), inf("*", var("c"), var("d")))))
    );
}

#[test]
fn non_associative_repetition_rejected() {
    let m = arith();
    assert_eq!(
        resolve("a = b = c", &m),
        Err(OpError::NonAssociativeRepetition("=".to_string()))
    );
}

#[test]
fn prefix_operator_between_operands_rejected() {
    let m = arith();
    assert_eq!(resolve("a - b", &m), Err(OpError::WrongFixity("-".to_string())));
}

#[test]
fn infix_operator_as_prefix_rejected() {
    let m = arith();
    assert_eq!(resolve("+ a", &m), Err(OpError::WrongFixity("+".to_string())));
}

#[test]
fn postfix_and_prefix_resolve() {
    let m = arith();
    assert_eq!(
        resolve("- a !", &m),
        Ok(Expr::PostfixOp("!".to_string(), Box::new(Expr::PrefixOp("-".to_string(), Box::new(var("a"))))))
    );
}

#[test]
fn unbound_operator() {
    let m = arith();
    assert_eq!(resolve("a ++ b", &m), Err(OpError::UnboundOperator("++".to_string())));
}

#[test]
fn mixed_associativity_rejected() {
    let m = calculate_poset(vec![
        OpInfo::new("+", Infix(Left), vec![]),
        OpInfo::new("::", Infix(Right), vec![Equal("+".to_string())]),
    ])
    .unwrap();
    assert_eq!(
        resolve("a + b :: c", &m),
        Err(OpError::UnresolvableMixedAssociativity("+".to_string(), "::".to_string()))
    );
}

#[test]
fn unambiguous_tree_unchanged() {
    let m = arith();
    let t = inf("+", inf("+", var("a"), var("b")), var("c"));
    let again = inf("+", inf("+", var("a"), var("b")), var("c"));
    assert_eq!(fixup(t, &m), Ok(again));
    let t = inf("::", var("a"), inf("::", var("b"), var("c")));
    let again = inf("::", var("a"), inf("::", var("b"), var("c")));
    assert_eq!(fixup(t, &m), Ok(again));
}

#[test]
fn fixup_leaves_var_alone() {
    let m = arith();
    assert_eq!(fixup(var("x"), &m), Ok(var("x")));
}

#[test]
fn precedence_defaults_and_above() {
    let m = arith();
    assert_eq!(prec(&m, "+"), Some(2));
    assert_eq!(prec(&m, "*"), Some(3));
    assert_eq!(prec(&m, "="), Some(1));
    assert_eq!(prec(&m, "::"), Some(1));
    assert_eq!(prec(&m, "-"), Some(1));
    assert_eq!(m.len(), 6);
}

#[test]
fn no_relations_share_baseline() {
    let m = calculate_poset(vec![
        OpInfo::new("+", Infix(Left), vec![]),
        OpInfo::new("-", Infix(Left), vec![]),
    ])
    .unwrap();
    assert_eq!(prec(&m, "+"), Some(1));
    assert_eq!(prec(&m, "-"), Some(1));
}

#[test]
fn resolution_twice_is_identical() {
    let decls = || {
        vec![
            OpInfo::new("a", Infix(Left), vec![Above("b".to_string())]),
            OpInfo::new("b", Infix(Left), vec![Above("c".to_string())]),
            OpInfo::new("c", Infix(Left), vec![]),
            OpInfo::new("d", Infix(Left), vec![Equal("b".to_string())]),
        ]
    };
    let m1 = calculate_poset(decls()).unwrap();
    let m2 = calculate_poset(decls()).unwrap();
    for n in ["a", "b", "c", "d"] {
        assert_eq!(prec(&m1, n), prec(&m2, n));
    }
}

#[test]
fn above_chain_is_ordered() {
    let m = calculate_poset(vec![
        OpInfo::new("c", Infix(Left), vec![]),
        OpInfo::new("a", Infix(Left), vec![Above("b".to_string())]),
        OpInfo::new("b", Infix(Left), vec![Above("c".to_string())]),
    ])
    .unwrap();
    assert_eq!(prec(&m, "a"), Some(3));
    assert_eq!(prec(&m, "b"), Some(2));
    assert_eq!(prec(&m, "c"), Some(1));
}

#[test]
fn equal_shares_precedence() {
    let m = calculate_poset(vec![
        OpInfo::new("+", Infix(Left), vec![]),
        OpInfo::new("-", Infix(Left), vec![Equal("+".to_string())]),
        OpInfo::new("*", Infix(Left), vec![Above("-".to_string())]),
    ])
    .unwrap();
    assert_eq!(prec(&m, "+"), prec(&m, "-"));
    assert_eq!(prec(&m, "*"), Some(3));
}

#[test]
fn direct_cycle_rejected() {
    let r = calculate_poset(vec![
        OpInfo::new("a", Infix(Left), vec![Above("b".to_string())]),
        OpInfo::new("b", Infix(Left), vec![Above("a".to_string())]),
    ]);
    assert_eq!(r.err(), Some(OpError::CyclicPrecedence(vec!["a".to_string(), "b".to_string()])));
}

#[test]
fn transitive_cycle_rejected() {
    let r = calculate_poset(vec![
        OpInfo::new("a", Infix(Left), vec![Above("b".to_string()), Below("d".to_string())]),
        OpInfo::new("b", Infix(Left), vec![Above("c".to_string())]),
        OpInfo::new("c", Infix(Left), vec![Above("d".to_string())]),
        OpInfo::new("d", Infix(Left), vec![]),
        OpInfo::new("e", Infix(Left), vec![Equal("a".to_string())]),
    ]);
    assert!(matches!(r, Err(OpError::CyclicPrecedence(_))));
    let r = calculate_poset(vec![
        OpInfo::new("a", Infix(Left), vec![Above("b".to_string())]),
        OpInfo::new("b", Infix(Left), vec![Above("c".to_string())]),
        OpInfo::new("c", Infix(Left), vec![Above("a".to_string())]),
        OpInfo::new("e", Infix(Left), vec![]),
    ]);
    assert_eq!(
        r.err(),
        Some(OpError::CyclicPrecedence(vec!["a".to_string(), "b".to_string(), "c".to_string()]))
    );
}

#[test]
fn equal_against_above_rejected() {
    let r = calculate_poset(vec![
        OpInfo::new("a", Infix(Left), vec![Above("b".to_string()), Equal("b".to_string())]),
        OpInfo::new("b", Infix(Left), vec![]),
    ]);
    assert_eq!(r.err(), Some(OpError::ConflictingEquality(vec!["a".to_string(), "b".to_string()])));
}

#[test]
fn duplicate_operator_rejected() {
    let r = calculate_poset(vec![
        OpInfo::new("+", Infix(Left), vec![]),
        OpInfo::new("+", Prefix, vec![]),
    ]);
    assert_eq!(r.err(), Some(OpError::DuplicateOperator("+".to_string())));
}

#[test]
fn unknown_reference_rejected() {
    let r = calculate_poset(vec![OpInfo::new("+", Infix(Left), vec![Above("*".to_string())])]);
    assert_eq!(
        r.err(),
        Some(OpError::UnknownOperatorReference("+".to_string(), "*".to_string()))
    );
}

#[test]
fn empty_registry() {
    let m = calculate_poset(vec![]).unwrap();
    assert_eq!(m.len(), 0);
    assert_eq!(fixup(var("x"), &m), Ok(var("x")));
}

#[test]
fn prefix_takes_a_primary() {
    let e = parse("- a + b").unwrap().unwrap();
    assert_eq!(e, inf("+", Expr::PrefixOp("-".to_string(), Box::new(var("a"))), var("b")));
    let e = parse("- - a").unwrap().unwrap();
    assert_eq!(
        e,
        Expr::PrefixOp("-".to_string(), Box::new(Expr::PrefixOp("-".to_string(), Box::new(var("a")))))
    );
}

#[test]
fn parse_shapes() {
    assert_eq!(parse("a * b + c"), Some(Ok(inf("*", var("a"), inf("+", var("b"), var("c"))))));
    assert_eq!(parse("(a + b) * c"), Some(Ok(inf("*", inf("+", var("a"), var("b")), var("c")))));
    assert_eq!(parse("a !"), Some(Ok(Expr::PostfixOp("!".to_string(), Box::new(var("a"))))));
    assert_eq!(parse("(a !)"), Some(Ok(Expr::PostfixOp("!".to_string(), Box::new(var("a"))))));
}

#[test]
fn fixup_twice_is_fixup_once() {
    let m = arith();
    let once = resolve("a * b + c = d", &m).unwrap();
    let again = resolve("a * b + c = d", &m).unwrap();
    assert_eq!(fixup(once, &m), Ok(again));
}

#[test]
fn parse_with_given_classes() {
    let chars: Vec<char> = "1 + 2".chars().collect();
    let alpha = vec![true, false, false, false, true];
    let alnum = vec![true, false, false, false, true];
    assert_eq!(
        opfixup::parse_classified(chars.clone(), alpha, alnum),
        Some(Ok(inf("+", var("1"), var("2"))))
    );
    let none = vec![false; 5];
    assert_eq!(
        opfixup::parse_classified(chars, none.clone(), none),
        Some(Err(ParseError::UnexpectedCharacter('1')))
    );
}
