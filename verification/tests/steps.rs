use toy_parser::diagnostic::Diagnostic;
use toy_parser::expr::Sign;
use toy_parser::lexer::Lexer;
use toy_parser::parser::Parser;
use toy_parser::statement::{ComparisonOperator, Expression, Statement};
use toy_parser::token::Token;

fn parser(source: &str) -> Parser {
    Parser::new(Lexer::new(source))
}

fn one(text: &str) -> Expression {
    Expression::Number(text.to_string())
}

#[test]
fn parser_holds_the_first_token() {
    let mut p = parser("x + 1");
    assert_eq!(p.peek(), Some(&Token::Ident("x".to_string())));
    assert_eq!(p.identifier(), Some("x".to_string()));
    assert_eq!(p.named_type(), None);
    assert!(!p.at_end());
    p.advance();
    assert!(p.at_symbol('+'));
    assert!(!p.at_symbol('-'));
    assert_eq!(p.identifier(), None);
    p.advance();
    p.advance();
    assert!(p.at_end());
    assert_eq!(p.peek(), None);
    p.advance();
    assert!(p.at_end());
}

#[test]
fn parser_tells_keywords_and_types() {
    let mut p = parser("else u8");
    assert!(p.at_keyword("else"));
    assert!(!p.at_keyword("if"));
    p.advance();
    assert!(!p.at_keyword("u8"));
    assert_eq!(p.named_type(), Some("u8".to_string()));
}

#[test]
fn comparison_operators_of_one_and_two_tokens() {
    let mut p = parser("<= 1");
    assert_eq!(p.parse_comparison_operator(), Sign::Present(ComparisonOperator::LessThanOrEqual));
    assert_eq!(p.peek(), Some(&Token::Number("1".to_string())));
    let mut p = parser("< 1");
    assert_eq!(p.parse_comparison_operator(), Sign::Present(ComparisonOperator::LessThan));
    assert_eq!(p.peek(), Some(&Token::Number("1".to_string())));
    assert_eq!(parser("> 1").parse_comparison_operator(), Sign::Present(ComparisonOperator::GreaterThan));
    assert_eq!(
        parser(">= 1").parse_comparison_operator(),
        Sign::Present(ComparisonOperator::GreaterThanOrEqual)
    );
    assert_eq!(parser("== 1").parse_comparison_operator(), Sign::Present(ComparisonOperator::Equal));
}

#[test]
fn half_a_comparison_operator_is_taken() {
    let mut p = parser("= 1");
    assert_eq!(p.parse_comparison_operator(), Sign::Broken);
    assert_eq!(p.peek(), Some(&Token::Number("1".to_string())));
}

#[test]
fn no_operator_takes_nothing() {
    let mut p = parser("+ 1");
    assert_eq!(p.parse_comparison_operator(), Sign::Absent);
    assert_eq!(p.parse_logical_operator(), Sign::Absent);
    assert!(p.at_symbol('+'));
    let mut p = parser("&& 1");
    assert_eq!(p.parse_logical_operator(), Sign::Absent);
    assert_eq!(p.peek(), Some(&Token::Unknown('&')));
    let mut p = parser("");
    assert_eq!(p.parse_logical_operator(), Sign::Absent);
    assert_eq!(p.parse_comparison_operator(), Sign::Absent);
}

#[test]
fn call_arguments_from_parenthesis_to_parenthesis() {
    let mut p = parser("(1, 2) x");
    assert_eq!(p.parse_call_arguments(), Some(vec![one("1"), one("2")]));
    assert_eq!(p.identifier(), Some("x".to_string()));
    assert_eq!(parser("()").parse_call_arguments(), Some(vec![]));
    assert_eq!(parser("(1").parse_call_arguments(), None);
    assert_eq!(parser("(1,)").parse_call_arguments(), None);
    assert_eq!(parser("(,)").parse_call_arguments(), None);
    let mut p = parser("1)");
    assert_eq!(p.parse_call_arguments(), None);
    assert_eq!(p.peek(), Some(&Token::Number("1".to_string())));
}

#[test]
fn statement_by_its_first_token() {
    let mut p = parser("let x = 1; f(); 7 if (a) { }");
    assert_eq!(
        p.parse_statement(),
        Some(Statement::VarDeclaration { name: "x".to_string(), var_type: None, value: one("1") })
    );
    assert!(p.at_symbol(';'));
    assert_eq!(p.parse_statement(), None);
    assert_eq!(
        p.parse_statement(),
        Some(Statement::FunctionCall { name: "f".to_string(), args: vec![] })
    );
    assert_eq!(p.parse_statement(), None);
    assert_eq!(p.parse_statement(), None);
    assert_eq!(
        p.parse_statement(),
        Some(Statement::If {
            condition: Expression::Identifier("a".to_string()),
            then_branch: vec![],
            else_branch: None,
        })
    );
    assert!(p.at_end());
}

#[test]
fn declaration_behind_its_keyword() {
    let mut p = parser("x: i32 = 2 ;");
    assert_eq!(
        p.parse_var_decl(),
        Some(Statement::VarDeclaration {
            name: "x".to_string(),
            var_type: Some("i32".to_string()),
            value: one("2"),
        })
    );
    assert!(p.at_symbol(';'));
    let mut p = parser("x 2");
    assert_eq!(p.parse_var_decl(), None);
    assert_eq!(p.peek(), Some(&Token::Number("2".to_string())));
    let mut p = parser("x = ;");
    assert_eq!(p.parse_var_decl(), None);
    assert!(p.at_symbol(';'));
}

#[test]
fn call_behind_its_name() {
    let mut p = parser("(1);");
    assert_eq!(
        p.parse_function_call("f".to_string()),
        Some(Statement::FunctionCall { name: "f".to_string(), args: vec![one("1")] })
    );
    assert!(p.at_symbol(';'));
    assert_eq!(parser("= 1").parse_function_call("f".to_string()), None);
}

#[test]
fn block_ends_before_its_brace() {
    let mut p = parser("f(); x g(); } h();");
    let body = p.parse_block();
    assert_eq!(
        body,
        vec![
            Statement::FunctionCall { name: "f".to_string(), args: vec![] },
            Statement::FunctionCall { name: "g".to_string(), args: vec![] },
        ]
    );
    assert!(p.at_symbol('}'));
    assert_eq!(p.parse_block(), vec![]);
    assert!(p.at_symbol('}'));
}

#[test]
fn conditional_at_its_keyword() {
    let mut p = parser("if (1) { } else { } x");
    assert_eq!(
        p.parse_if_statement(),
        Some(Statement::If {
            condition: one("1"),
            then_branch: vec![],
            else_branch: Some(Box::new(Statement::Block(vec![]))),
        })
    );
    assert_eq!(p.identifier(), Some("x".to_string()));
    assert!(p.diagnostics().is_empty());
}

#[test]
fn diagnostics_come_out_in_order() {
    // The inner conditional lacks its `(`, the `else` its `{`.
    let mut p = parser("if (a) { if b } else x");
    assert_eq!(p.parse(), vec![]);
    assert_eq!(
        p.into_diagnostics(),
        vec![Diagnostic::Expected('('), Diagnostic::Expected('{')]
    );
    let mut p = parser("if (a) { if b } else");
    assert_eq!(p.parse(), vec![]);
    assert_eq!(
        p.into_diagnostics(),
        vec![Diagnostic::Expected('('), Diagnostic::UnexpectedEnd]
    );
}

#[test]
fn nested_else_reports_before_the_outer_conditional_is_given_up() {
    let mut p = parser("if (a) { } else if (b) { } else {");
    assert_eq!(p.parse(), vec![]);
    assert_eq!(p.into_diagnostics(), vec![Diagnostic::UnexpectedEnd]);
}
