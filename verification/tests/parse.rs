use toy_parser::diagnostic::Diagnostic;
use toy_parser::lexer::Lexer;
use toy_parser::parser::{parse_source, Parser};
use toy_parser::statement::{ComparisonOperator, Expression, Operator, Statement};

fn number(text: &str) -> Expression {
    Expression::Number(text.to_string())
}

fn ident(name: &str) -> Expression {
    Expression::Identifier(name.to_string())
}

fn binary(left: Expression, op: Operator, right: Expression) -> Expression {
    Expression::BinaryOp(Box::new(left), op, Box::new(right))
}

fn compare(left: Expression, op: ComparisonOperator, right: Expression) -> Expression {
    Expression::ComparisonOp(Box::new(left), op, Box::new(right))
}

fn call(name: &str, args: Vec<Expression>) -> Statement {
    Statement::FunctionCall { name: name.to_string(), args }
}

fn parsed(source: &str) -> Vec<Statement> {
    let (statements, notes) = parse_source(source).unwrap();
    assert!(notes.is_empty());
    statements
}

fn expression_of(source: &str) -> Expression {
    let mut parser = Parser::new(Lexer::new(source));
    parser.parse_expression().unwrap()
}

#[test]
fn multiplication_binds_tighter_than_addition() {
    let tree = expression_of("2 + 3 * 4");
    assert_eq!(
        tree,
        binary(number("2"), Operator::Add, binary(number("3"), Operator::Mul, number("4")))
    );
    assert_eq!(tree.render(), "(2 + (3 * 4))");
}

#[test]
fn division_groups_to_the_left() {
    let tree = expression_of("8 / 4 / 2");
    assert_eq!(
        tree,
        binary(binary(number("8"), Operator::Div, number("4")), Operator::Div, number("2"))
    );
    assert_eq!(tree.render(), "((8 / 4) / 2)");
}

#[test]
fn subtraction_groups_to_the_left() {
    assert_eq!(expression_of("9 - 3 - 2 + 1").render(), "(((9 - 3) - 2) + 1)");
}

#[test]
fn mixed_arithmetic_groups_by_rank() {
    assert_eq!(expression_of("1 * 2 + 3 / 4 - 5").render(), "(((1 * 2) + (3 / 4)) - 5)");
}

#[test]
fn parentheses_override_precedence() {
    let tree = expression_of("(2 + 3) * 4");
    assert_eq!(
        tree,
        binary(binary(number("2"), Operator::Add, number("3")), Operator::Mul, number("4"))
    );
    assert_eq!(tree.render(), "((2 + 3) * 4)");
}

#[test]
fn nested_parentheses() {
    assert_eq!(expression_of("2 * (3 + (4 - 1))").render(), "(2 * (3 + (4 - 1)))");
}

#[test]
fn comparison_binds_looser_than_arithmetic() {
    let tree = expression_of("1 + 1 == 2");
    assert_eq!(
        tree,
        compare(
            binary(number("1"), Operator::Add, number("1")),
            ComparisonOperator::Equal,
            number("2")
        )
    );
    assert_eq!(tree.render(), "((1 + 1) == 2)");
}

#[test]
fn every_comparison_the_tokenizer_can_spell() {
    assert_eq!(expression_of("3 > 2").render(), "(3 > 2)");
    assert_eq!(expression_of("3 < 2").render(), "(3 < 2)");
    assert_eq!(expression_of("3 >= 2").render(), "(3 >= 2)");
    assert_eq!(expression_of("3 <= 2 + 1").render(), "(3 <= (2 + 1))");
    assert_eq!(expression_of("a == b == c").render(), "((Ident: a == Ident: b) == Ident: c)");
}

#[test]
fn single_equals_fails_the_expression() {
    let mut parser = Parser::new(Lexer::new("1 = 2"));
    assert_eq!(parser.parse_expression(), None);
    // `1` and `=` are taken, `2` is what the parser holds.
    assert_eq!(parser.parse_expression(), Some(number("2")));
}

#[test]
fn ampersand_is_no_symbol_so_the_expression_ends_before_it() {
    let mut parser = Parser::new(Lexer::new("1 + 1 == 2 && 3 > 2"));
    let tree = parser.parse_expression().unwrap();
    assert_eq!(tree.render(), "((1 + 1) == 2)");
    assert_eq!(
        parser.peek(),
        Some(&toy_parser::token::Token::Unknown('&'))
    );
}

#[test]
fn declaration_with_type() {
    assert_eq!(
        parsed("let x: number = 42;"),
        vec![Statement::VarDeclaration {
            name: "x".to_string(),
            var_type: Some("number".to_string()),
            value: number("42"),
        }]
    );
}

#[test]
fn declaration_without_type() {
    let statements = parsed("let y = 1 + 2;");
    assert_eq!(
        statements,
        vec![Statement::VarDeclaration {
            name: "y".to_string(),
            var_type: None,
            value: binary(number("1"), Operator::Add, number("2")),
        }]
    );
    assert_eq!(statements[0].render(), "Var: y: unknown = (1 + 2)");
}

#[test]
fn const_declares_like_let() {
    assert_eq!(
        parsed("const s: string = \"hi\";"),
        vec![Statement::VarDeclaration {
            name: "s".to_string(),
            var_type: Some("string".to_string()),
            value: Expression::StringLiteral("hi".to_string()),
        }]
    );
}

#[test]
fn colon_without_type_name_gives_no_type() {
    assert_eq!(
        parsed("let x: = 5;"),
        vec![Statement::VarDeclaration {
            name: "x".to_string(),
            var_type: None,
            value: number("5"),
        }]
    );
}

#[test]
fn colon_with_unknown_type_abandons_the_declaration() {
    assert_eq!(parsed("let x: foo = 5; g();"), vec![call("g", vec![])]);
}

#[test]
fn declaration_without_name_is_left_out() {
    assert_eq!(parsed("let = 5; f(1);"), vec![call("f", vec![number("1")])]);
}

#[test]
fn else_if_chain() {
    let statements = parsed("if (a) { f(); } else if (b) { g(); } else { h(); }");
    assert_eq!(
        statements,
        vec![Statement::If {
            condition: ident("a"),
            then_branch: vec![call("f", vec![])],
            else_branch: Some(Box::new(Statement::If {
                condition: ident("b"),
                then_branch: vec![call("g", vec![])],
                else_branch: Some(Box::new(Statement::Block(vec![call("h", vec![])]))),
            })),
        }]
    );
    assert_eq!(
        statements[0].render(),
        "If: (Ident: a) {\n    FunctionCall: f()\n} else If: (Ident: b) {\n    FunctionCall: g()\n} else {\n    FunctionCall: h()\n}"
    );
}

#[test]
fn conditional_without_else() {
    assert_eq!(
        parsed("if (x > 1) { let y = x; } z();"),
        vec![
            Statement::If {
                condition: compare(ident("x"), ComparisonOperator::GreaterThan, number("1")),
                then_branch: vec![Statement::VarDeclaration {
                    name: "y".to_string(),
                    var_type: None,
                    value: ident("x"),
                }],
                else_branch: None,
            },
            call("z", vec![]),
        ]
    );
}

#[test]
fn conditionals_nest() {
    let statements = parsed("if (a) { if (b) { f(); } g(); }");
    assert_eq!(
        statements,
        vec![Statement::If {
            condition: ident("a"),
            then_branch: vec![
                Statement::If {
                    condition: ident("b"),
                    then_branch: vec![call("f", vec![])],
                    else_branch: None,
                },
                call("g", vec![]),
            ],
            else_branch: None,
        }]
    );
}

#[test]
fn call_with_arguments() {
    assert_eq!(
        parsed("f(1, 2 + 3, g(x), \"s\");"),
        vec![call(
            "f",
            vec![
                number("1"),
                binary(number("2"), Operator::Add, number("3")),
                Expression::FunctionCall { name: "g".to_string(), args: vec![ident("x")] },
                Expression::StringLiteral("s".to_string()),
            ]
        )]
    );
}

#[test]
fn call_renders_its_arguments() {
    assert_eq!(parsed("f(1, x, g())")[0].render(), "FunctionCall: f(1, Ident: x, FunctionCall: g())");
}

#[test]
fn trailing_comma_fails_the_call() {
    assert_eq!(parsed("f(1,); g();"), vec![call("g", vec![])]);
}

#[test]
fn missing_comma_ends_the_arguments() {
    // `f(1 2)`: the list ends behind `1`, and no `)` stands there.
    assert_eq!(parsed("f(1 2); g();"), vec![call("g", vec![])]);
}

#[test]
fn identifier_without_call_is_passed_over() {
    assert_eq!(parsed("x; f();"), vec![call("f", vec![])]);
}

#[test]
fn stray_tokens_are_passed_over() {
    assert_eq!(parsed("{ 1 \"s\" ; + f(); return"), vec![call("f", vec![])]);
}

#[test]
fn parse_stops_before_a_closing_brace() {
    let mut parser = Parser::new(Lexer::new("f(); } g();"));
    assert_eq!(parser.parse(), vec![call("f", vec![])]);
    assert!(parser.at_symbol('}'));
    assert_eq!(parsed("f(); } g();"), vec![call("f", vec![])]);
}

#[test]
fn unclosed_parenthesis_is_tolerated() {
    assert_eq!(
        parsed("let z = (1 + 2;"),
        vec![Statement::VarDeclaration {
            name: "z".to_string(),
            var_type: None,
            value: binary(number("1"), Operator::Add, number("2")),
        }]
    );
}

#[test]
fn empty_text_has_no_statements() {
    assert_eq!(parsed(""), vec![]);
    assert_eq!(parsed("   \n\t "), vec![]);
}

#[test]
fn missing_opening_parenthesis_is_reported() {
    let (statements, notes) = parse_source("if a) { f(); }").unwrap();
    // The conditional is given up at `a`; `a` alone is no statement, and the
    // `}` ends the list.
    assert_eq!(statements, vec![call("f", vec![])]);
    assert_eq!(notes, vec![Diagnostic::Expected('(')]);
}

#[test]
fn missing_closing_parenthesis_is_reported() {
    let (statements, notes) = parse_source("if (a { f(); }").unwrap();
    assert_eq!(statements, vec![call("f", vec![])]);
    assert_eq!(notes, vec![Diagnostic::Expected(')')]);
}

#[test]
fn missing_brace_is_reported() {
    let (statements, notes) = parse_source("if (a) f();").unwrap();
    assert_eq!(statements, vec![call("f", vec![])]);
    assert_eq!(notes, vec![Diagnostic::Expected('{')]);
}

#[test]
fn unclosed_conditional_reports_the_end() {
    let (statements, notes) = parse_source("if (a) { f();").unwrap();
    assert!(statements.is_empty());
    assert_eq!(notes, vec![Diagnostic::UnexpectedEnd]);
}

#[test]
fn else_without_brace_is_reported() {
    let (statements, notes) = parse_source("if (a) { f(); } else g();").unwrap();
    assert_eq!(statements, vec![call("g", vec![])]);
    assert_eq!(notes, vec![Diagnostic::Expected('{')]);
}

#[test]
fn several_diagnostics_in_one_parse() {
    let (statements, notes) = parse_source("if a; if (b) c; h();").unwrap();
    assert_eq!(statements, vec![call("h", vec![])]);
    assert_eq!(notes, vec![Diagnostic::Expected('('), Diagnostic::Expected('{')]);
}

#[test]
fn condition_that_is_no_expression_abandons_silently() {
    let (statements, notes) = parse_source("if () { f(); }").unwrap();
    assert_eq!(statements, vec![call("f", vec![])]);
    assert!(notes.is_empty());
}

#[test]
fn malformed_number_is_fatal() {
    assert_eq!(parse_source("1.2.3"), None);
    assert_eq!(parse_source("let x = 1; let y = 1.2.3; f();"), None);
    assert_eq!(parse_source("f(); } 1.2.3"), None);
}

#[test]
fn other_malformed_constructs_are_passed() {
    let (statements, notes) =
        parse_source("let = ; f(1 2); if (a { } x y \"open\nlet ok = 1;").unwrap();
    // The string literal is not closed and takes the rest of the text.
    assert!(statements.is_empty());
    assert_eq!(notes, vec![Diagnostic::Expected(')')]);
    let (statements, _) = parse_source("let = ; f(1 2); @ # let ok = 1;").unwrap();
    assert_eq!(
        statements,
        vec![Statement::VarDeclaration {
            name: "ok".to_string(),
            var_type: None,
            value: number("1"),
        }]
    );
}

#[test]
fn expect_takes_the_symbol_or_reports() {
    let mut parser = Parser::new(Lexer::new("( x"));
    assert!(parser.expect('('));
    assert!(!parser.expect(')'));
    parser.advance();
    assert!(parser.at_end());
    assert!(!parser.expect(')'));
    assert_eq!(
        parser.diagnostics(),
        &vec![Diagnostic::Expected(')'), Diagnostic::UnexpectedEnd]
    );
}

#[test]
fn factor_is_one_operand() {
    let mut parser = Parser::new(Lexer::new("a * b"));
    assert_eq!(parser.parse_factor(), Some(ident("a")));
    assert!(parser.at_symbol('*'));
    let mut parser = Parser::new(Lexer::new("+ 1"));
    assert_eq!(parser.parse_factor(), None);
    assert!(parser.at_symbol('+'));
}

#[test]
fn term_stops_before_addition() {
    let mut parser = Parser::new(Lexer::new("a * b + c"));
    assert_eq!(parser.parse_term().unwrap().render(), "(Ident: a * Ident: b)");
    assert!(parser.at_symbol('+'));
    assert_eq!(
        Parser::new(Lexer::new("a * b + c")).parse_additive_expression().unwrap().render(),
        "((Ident: a * Ident: b) + Ident: c)"
    );
}

#[test]
fn levels_agree_on_a_plain_operand() {
    assert_eq!(Parser::new(Lexer::new("7")).parse_logical_expression(), Some(number("7")));
    assert_eq!(Parser::new(Lexer::new("7")).parse_comparison_expression(), Some(number("7")));
}

#[test]
fn operator_without_right_operand_fails() {
    let mut parser = Parser::new(Lexer::new("1 + ;"));
    assert_eq!(parser.parse_expression(), None);
    assert!(parser.at_symbol(';'));
}

#[test]
fn string_literal_renders_with_its_label() {
    assert_eq!(expression_of("'a b'").render(), "StringLiteral: a b");
}

#[test]
fn block_renders_in_braces() {
    let block = Statement::Block(vec![call("f", vec![]), call("g", vec![number("1")])]);
    assert_eq!(block.render(), "{\n    FunctionCall: f()\n    FunctionCall: g(1)\n}");
}

#[test]
fn operators_have_symbols() {
    assert_eq!(Operator::Add.symbol(), "+");
    assert_eq!(Operator::Sub.symbol(), "-");
    assert_eq!(Operator::Mul.symbol(), "*");
    assert_eq!(Operator::Div.symbol(), "/");
    assert_eq!(ComparisonOperator::NotEqual.symbol(), "!=");
    assert_eq!(toy_parser::statement::LogicalOperator::And.symbol(), "&&");
    assert_eq!(toy_parser::statement::LogicalOperator::Or.symbol(), "||");
}

#[test]
fn logical_tree_renders_grouped() {
    let tree = Expression::LogicalOp(
        Box::new(compare(
            binary(number("1"), Operator::Add, number("1")),
            ComparisonOperator::Equal,
            number("2"),
        )),
        toy_parser::statement::LogicalOperator::And,
        Box::new(compare(number("3"), ComparisonOperator::GreaterThan, number("2"))),
    );
    assert_eq!(tree.render(), "(((1 + 1) == 2) && (3 > 2))");
}
