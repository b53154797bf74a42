use toy_parser::parser::Parser;
use toy_parser::statement::{ComparisonOperator, Expression, LogicalOperator, Operator};
use toy_parser::token::Token;

fn n(text: &str) -> Expression {
    Expression::Number(text.to_string())
}

fn id(name: &str) -> Expression {
    Expression::Identifier(name.to_string())
}

fn bin(left: Expression, op: Operator, right: Expression) -> Expression {
    Expression::BinaryOp(Box::new(left), op, Box::new(right))
}

fn cmp(left: Expression, op: ComparisonOperator, right: Expression) -> Expression {
    Expression::ComparisonOp(Box::new(left), op, Box::new(right))
}

fn log(left: Expression, op: LogicalOperator, right: Expression) -> Expression {
    Expression::LogicalOp(Box::new(left), op, Box::new(right))
}

fn call(name: &str, args: Vec<Expression>) -> Expression {
    Expression::FunctionCall { name: name.to_string(), args }
}

fn spelled(tokens: &[Token]) -> String {
    tokens.iter().map(|t| t.spelling()).collect::<Vec<String>>().join(" ")
}

fn samples() -> Vec<Expression> {
    vec![
        n("1"),
        id("x"),
        Expression::StringLiteral("s".to_string()),
        bin(n("2"), Operator::Add, bin(n("3"), Operator::Mul, n("4"))),
        bin(bin(n("2"), Operator::Add, n("3")), Operator::Mul, n("4")),
        bin(bin(n("8"), Operator::Div, n("4")), Operator::Div, n("2")),
        bin(n("8"), Operator::Div, bin(n("4"), Operator::Div, n("2"))),
        bin(n("8"), Operator::Sub, bin(n("4"), Operator::Sub, n("2"))),
        cmp(bin(n("1"), Operator::Add, n("1")), ComparisonOperator::Equal, n("2")),
        cmp(n("1"), ComparisonOperator::LessThan, cmp(n("2"), ComparisonOperator::NotEqual, n("3"))),
        cmp(cmp(n("1"), ComparisonOperator::GreaterThanOrEqual, n("2")), ComparisonOperator::LessThanOrEqual, n("3")),
        log(
            cmp(bin(n("1"), Operator::Add, n("1")), ComparisonOperator::Equal, n("2")),
            LogicalOperator::And,
            cmp(n("3"), ComparisonOperator::GreaterThan, n("2")),
        ),
        log(id("a"), LogicalOperator::Or, log(id("b"), LogicalOperator::And, id("c"))),
        bin(log(id("a"), LogicalOperator::Or, id("b")), Operator::Mul, id("c")),
        call("f", vec![]),
        call("f", vec![n("1")]),
        call("f", vec![n("1"), bin(id("x"), Operator::Add, n("2")), call("g", vec![id("y"), id("z")])]),
        bin(call("f", vec![log(id("a"), LogicalOperator::And, id("b"))]), Operator::Sub, n("1")),
    ]
}

#[test]
fn every_expression_is_read_back_from_its_tokens() {
    for tree in samples() {
        let tokens = tree.written();
        let mut parser = Parser::from_tokens(tokens);
        assert_eq!(parser.parse_expression().as_ref(), Some(&tree));
        assert!(parser.at_end());
    }
}

#[test]
fn every_expression_is_read_back_before_a_token_that_ends_it() {
    for tree in samples() {
        for end in [Token::Symbol(')'), Token::Symbol(','), Token::Symbol(';'), Token::Ident("x".to_string())] {
            let mut tokens = tree.written();
            tokens.push(end.clone());
            let mut parser = Parser::from_tokens(tokens);
            assert_eq!(parser.parse_expression().as_ref(), Some(&tree));
            assert_eq!(parser.peek(), Some(&end));
        }
    }
}

#[test]
fn parentheses_are_written_where_grouping_needs_them() {
    let tree = bin(bin(n("2"), Operator::Add, n("3")), Operator::Mul, n("4"));
    assert_eq!(spelled(&tree.written()), "( 2 + 3 ) * 4");
    let tree = bin(n("2"), Operator::Add, bin(n("3"), Operator::Mul, n("4")));
    assert_eq!(spelled(&tree.written()), "2 + 3 * 4");
    let tree = bin(n("8"), Operator::Div, bin(n("4"), Operator::Div, n("2")));
    assert_eq!(spelled(&tree.written()), "8 / ( 4 / 2 )");
    let tree = bin(bin(n("8"), Operator::Div, n("4")), Operator::Div, n("2"));
    assert_eq!(spelled(&tree.written()), "8 / 4 / 2");
    let tree = call("f", vec![n("1"), cmp(id("a"), ComparisonOperator::LessThanOrEqual, id("b"))]);
    assert_eq!(spelled(&tree.written()), "f ( 1 , a < = b )");
}

#[test]
fn rank_of_the_root() {
    assert_eq!(log(n("1"), LogicalOperator::Or, n("2")).rank(), 0);
    assert_eq!(cmp(n("1"), ComparisonOperator::Equal, n("2")).rank(), 1);
    assert_eq!(bin(n("1"), Operator::Sub, n("2")).rank(), 2);
    assert_eq!(bin(n("1"), Operator::Div, n("2")).rank(), 3);
    assert_eq!(n("1").rank(), 4);
    assert_eq!(call("f", vec![]).rank(), 4);
    assert_eq!(Operator::Mul.character(), '*');
}

#[test]
fn text_without_logical_operators_is_read_back_through_the_tokenizer() {
    for tree in samples() {
        let text = spelled(&tree.written());
        if text.contains('&') || text.contains('|') || text.contains('!') {
            continue;
        }
        let mut parser = Parser::new(toy_parser::lexer::Lexer::new(&text));
        assert_eq!(parser.parse_expression().as_ref(), Some(&tree), "{}", text);
    }
}
