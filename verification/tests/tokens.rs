use toy_parser::expr::Sign;
use toy_parser::lexer::tokenize;
use toy_parser::parser::Parser;
use toy_parser::statement::{ComparisonOperator, Expression, LogicalOperator, Operator, Statement};
use toy_parser::token::Token;

fn symbol(c: char) -> Token {
    Token::Symbol(c)
}

fn number(text: &str) -> Token {
    Token::Number(text.to_string())
}

fn literal(text: &str) -> Expression {
    Expression::Number(text.to_string())
}

/// The tokens of `source`, with `&`, `|` and `!` as symbols.
fn with_operator_symbols(source: &str) -> Vec<Token> {
    tokenize(source)
        .unwrap()
        .into_iter()
        .map(|token| match token {
            Token::Unknown(c) if c == '&' || c == '|' || c == '!' => Token::Symbol(c),
            other => other,
        })
        .collect()
}

#[test]
fn parser_over_a_list_takes_the_tokens_in_order() {
    let mut parser = Parser::from_tokens(vec![number("1"), symbol('+'), number("2")]);
    assert_eq!(parser.peek(), Some(&number("1")));
    parser.advance();
    assert_eq!(parser.peek(), Some(&symbol('+')));
    parser.advance();
    assert_eq!(parser.peek(), Some(&number("2")));
    parser.advance();
    assert!(parser.at_end());
    assert!(Parser::from_tokens(vec![]).at_end());
}

#[test]
fn list_and_text_parse_alike() {
    let source = "let x: number = f(1, 2) * (3 - y); if (x < 1) { g(); } else { h(x); }";
    let mut from_text = Parser::new(toy_parser::lexer::Lexer::new(source));
    let mut from_list = Parser::from_tokens(tokenize(source).unwrap());
    assert_eq!(from_text.parse(), from_list.parse());
}

#[test]
fn logical_binds_loosest() {
    let mut parser = Parser::from_tokens(with_operator_symbols("1 + 1 == 2 && 3 > 2"));
    let tree = parser.parse_expression().unwrap();
    assert!(parser.at_end());
    assert_eq!(
        tree,
        Expression::LogicalOp(
            Box::new(Expression::ComparisonOp(
                Box::new(Expression::BinaryOp(
                    Box::new(literal("1")),
                    Operator::Add,
                    Box::new(literal("1"))
                )),
                ComparisonOperator::Equal,
                Box::new(literal("2"))
            )),
            LogicalOperator::And,
            Box::new(Expression::ComparisonOp(
                Box::new(literal("3")),
                ComparisonOperator::GreaterThan,
                Box::new(literal("2"))
            ))
        )
    );
    assert_eq!(tree.render(), "(((1 + 1) == 2) && (3 > 2))");
}

#[test]
fn logical_operators_group_to_the_left() {
    let mut parser = Parser::from_tokens(with_operator_symbols("a || b && c || d"));
    assert_eq!(
        parser.parse_expression().unwrap().render(),
        "(((Ident: a || Ident: b) && Ident: c) || Ident: d)"
    );
}

#[test]
fn not_equal_is_a_comparison() {
    let mut parser = Parser::from_tokens(with_operator_symbols("a != b + 1"));
    assert_eq!(parser.parse_expression().unwrap().render(), "(Ident: a != (Ident: b + 1))");
}

#[test]
fn parenthesized_logical_operand() {
    let mut parser = Parser::from_tokens(with_operator_symbols("(a || b) == c * (d && e)"));
    assert_eq!(
        parser.parse_expression().unwrap().render(),
        "((Ident: a || Ident: b) == (Ident: c * (Ident: d && Ident: e)))"
    );
}

#[test]
fn half_a_logical_operator_fails_the_expression() {
    let mut parser = Parser::from_tokens(with_operator_symbols("a & b"));
    assert_eq!(parser.parse_expression(), None);
    assert_eq!(parser.identifier(), Some("b".to_string()));
    let mut parser = Parser::from_tokens(with_operator_symbols("| x"));
    assert_eq!(parser.parse_logical_operator(), Sign::Broken);
    assert_eq!(parser.identifier(), Some("x".to_string()));
    let mut parser = Parser::from_tokens(with_operator_symbols("| | x"));
    assert_eq!(parser.parse_logical_operator(), Sign::Present(LogicalOperator::Or));
    assert_eq!(parser.identifier(), Some("x".to_string()));
    let mut parser = Parser::from_tokens(with_operator_symbols("&& x"));
    assert_eq!(parser.parse_logical_operator(), Sign::Present(LogicalOperator::And));
    let mut parser = Parser::from_tokens(with_operator_symbols("! x"));
    assert_eq!(parser.parse_comparison_operator(), Sign::Broken);
    let mut parser = Parser::from_tokens(with_operator_symbols("!= x"));
    assert_eq!(parser.parse_comparison_operator(), Sign::Present(ComparisonOperator::NotEqual));
}

#[test]
fn logical_condition_of_a_conditional() {
    let mut parser = Parser::from_tokens(with_operator_symbols("if (a && b) { f(); }"));
    let statements = parser.parse();
    assert_eq!(statements.len(), 1);
    assert_eq!(
        statements[0].render(),
        "If: ((Ident: a && Ident: b)) {\n    FunctionCall: f()\n}"
    );
    match &statements[0] {
        Statement::If { else_branch, .. } => assert!(else_branch.is_none()),
        other => panic!("no conditional: {:?}", other),
    }
}
