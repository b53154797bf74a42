//! The syntax tree: statements, expressions and their operators.
use vstd::prelude::*;
use crate::lexer::is_number_text;

verus! {

/// An arithmetic operator.
#[derive(Debug, PartialEq, Eq, Clone, Copy)]
pub enum Operator {
    Add,
    Sub,
    Mul,
    Div,
}

/// A logical operator: `&&` or `||`.
#[derive(Debug, PartialEq, Eq, Clone, Copy)]
pub enum LogicalOperator {
    And,
    Or,
}

/// A comparison operator: `==`, `!=`, `<`, `>`, `<=` or `>=`.
#[derive(Debug, PartialEq, Eq, Clone, Copy)]
pub enum ComparisonOperator {
    Equal,
    NotEqual,
    LessThan,
    GreaterThan,
    LessThanOrEqual,
    GreaterThanOrEqual,
}

/// An expression. Every node owns its operands.
#[derive(Debug, PartialEq)]
pub enum Expression {
    Identifier(String),
    /// A numeric literal, held as it was written.
    Number(String),
    StringLiteral(String),
    BinaryOp(Box<Expression>, Operator, Box<Expression>),
    LogicalOp(Box<Expression>, LogicalOperator, Box<Expression>),
    ComparisonOp(Box<Expression>, ComparisonOperator, Box<Expression>),
    FunctionCall { name: String, args: Vec<Expression> },
}

/// A statement. Every node owns its parts.
#[derive(Debug, PartialEq)]
pub enum Statement {
    VarDeclaration { name: String, var_type: Option<String>, value: Expression },
    FunctionCall { name: String, args: Vec<Expression> },
    If { condition: Expression, then_branch: Vec<Statement>, else_branch: Option<Box<Statement>> },
    /// The statements of an `else` arm.
    Block(Vec<Statement>),
}

/// The mathematical value of an [`Expression`].
pub enum ExpressionView {
    Identifier(Seq<char>),
    Number(Seq<char>),
    StringLiteral(Seq<char>),
    BinaryOp(Box<ExpressionView>, Operator, Box<ExpressionView>),
    LogicalOp(Box<ExpressionView>, LogicalOperator, Box<ExpressionView>),
    ComparisonOp(Box<ExpressionView>, ComparisonOperator, Box<ExpressionView>),
    FunctionCall { name: Seq<char>, args: Seq<ExpressionView> },
}

/// The mathematical value of a [`Statement`].
pub enum StatementView {
    VarDeclaration { name: Seq<char>, var_type: Option<Seq<char>>, value: ExpressionView },
    FunctionCall { name: Seq<char>, args: Seq<ExpressionView> },
    If {
        condition: ExpressionView,
        then_branch: Seq<StatementView>,
        else_branch: Option<Box<StatementView>>,
    },
    Block(Seq<StatementView>),
}

/// The value of an expression.
pub open spec fn expression_view(expression: Expression) -> ExpressionView
    decreases expression,
{
    match expression {
        Expression::Identifier(name) => ExpressionView::Identifier(name@),
        Expression::Number(text) => ExpressionView::Number(text@),
        Expression::StringLiteral(text) => ExpressionView::StringLiteral(text@),
        Expression::BinaryOp(left, op, right) => ExpressionView::BinaryOp(
            Box::new(expression_view(*left)),
            op,
            Box::new(expression_view(*right)),
        ),
        Expression::LogicalOp(left, op, right) => ExpressionView::LogicalOp(
            Box::new(expression_view(*left)),
            op,
            Box::new(expression_view(*right)),
        ),
        Expression::ComparisonOp(left, op, right) => ExpressionView::ComparisonOp(
            Box::new(expression_view(*left)),
            op,
            Box::new(expression_view(*right)),
        ),
        Expression::FunctionCall { name, args } => ExpressionView::FunctionCall {
            name: name@,
            args: expression_views(args@),
        },
    }
}

/// The values of a list of expressions, in order.
pub open spec fn expression_views(list: Seq<Expression>) -> Seq<ExpressionView>
    decreases list,
{
    if list.len() == 0 {
        Seq::empty()
    } else {
        expression_views(list.drop_last()).push(expression_view(list.last()))
    }
}

/// The value of a statement.
pub open spec fn statement_view(statement: Statement) -> StatementView
    decreases statement,
{
    match statement {
        Statement::VarDeclaration { name, var_type, value } => StatementView::VarDeclaration {
            name: name@,
            var_type: match var_type {
                Some(t) => Some(t@),
                None => None,
            },
            value: expression_view(value),
        },
        Statement::FunctionCall { name, args } => StatementView::FunctionCall {
            name: name@,
            args: expression_views(args@),
        },
        Statement::If { condition, then_branch, else_branch } => StatementView::If {
            condition: expression_view(condition),
            then_branch: statement_views(then_branch@),
            else_branch: match else_branch {
                Some(other) => Some(Box::new(statement_view(*other))),
                None => None,
            },
        },
        Statement::Block(body) => StatementView::Block(statement_views(body@)),
    }
}

/// The values of a list of statements, in order.
pub open spec fn statement_views(list: Seq<Statement>) -> Seq<StatementView>
    decreases list,
{
    if list.len() == 0 {
        Seq::empty()
    } else {
        statement_views(list.drop_last()).push(statement_view(list.last()))
    }
}

impl View for Expression {
    type V = ExpressionView;

    open spec fn view(&self) -> ExpressionView {
        expression_view(*self)
    }
}

impl View for Statement {
    type V = StatementView;

    open spec fn view(&self) -> StatementView {
        statement_view(*self)
    }
}

/// The value of a list grows with the list.
pub proof fn lemma_expression_views_push(list: Seq<Expression>, last: Expression)
    ensures
        expression_views(list.push(last)) == expression_views(list).push(last@),
{
    assert(list.push(last).drop_last() == list);
}

/// The value of a list grows with the list.
pub proof fn lemma_statement_views_push(list: Seq<Statement>, last: Statement)
    ensures
        statement_views(list.push(last)) == statement_views(list).push(last@),
{
    assert(list.push(last).drop_last() == list);
}

/// Whether a statement is one that may stand in a list of statements: no
/// block, and a conditional only with branches of such statements. The
/// `else` arm of a conditional is another such conditional or a block of
/// such statements, and nothing else.
pub open spec fn shaped(statement: StatementView) -> bool
    decreases statement, 0nat,
{
    match statement {
        StatementView::VarDeclaration { .. } => true,
        StatementView::FunctionCall { .. } => true,
        StatementView::If { condition, then_branch, else_branch } => all_shaped(then_branch)
            && match else_branch {
            Some(other) => shaped_else(*other),
            None => true,
        },
        StatementView::Block(_) => false,
    }
}

/// Whether a statement may stand as the `else` arm of a conditional.
pub open spec fn shaped_else(statement: StatementView) -> bool
    decreases statement, 1nat,
{
    match statement {
        StatementView::If { .. } => shaped(statement),
        StatementView::Block(body) => all_shaped(body),
        _ => false,
    }
}

/// Whether every statement of a list may stand there.
pub open spec fn all_shaped(list: Seq<StatementView>) -> bool
    decreases list, 0nat,
{
    forall|i: int| 0 <= i < list.len() ==> shaped(#[trigger] list[i])
}

/// Whether every numeric literal of an expression is a decimal numeral.
pub open spec fn numerals(e: ExpressionView) -> bool
    decreases e,
{
    match e {
        ExpressionView::Number(text) => is_number_text(text),
        ExpressionView::BinaryOp(left, _, right) => numerals(*left) && numerals(*right),
        ExpressionView::ComparisonOp(left, _, right) => numerals(*left) && numerals(*right),
        ExpressionView::LogicalOp(left, _, right) => numerals(*left) && numerals(*right),
        ExpressionView::FunctionCall { name, args } => all_numerals(args),
        _ => true,
    }
}

/// Whether every numeric literal of a list of expressions is a decimal
/// numeral.
pub open spec fn all_numerals(list: Seq<ExpressionView>) -> bool
    decreases list,
{
    forall|i: int| 0 <= i < list.len() ==> numerals(#[trigger] list[i])
}

/// Whether every numeric literal of a statement is a decimal numeral.
pub open spec fn statement_numerals(statement: StatementView) -> bool
    decreases statement,
{
    match statement {
        StatementView::VarDeclaration { value, .. } => numerals(value),
        StatementView::FunctionCall { args, .. } => all_numerals(args),
        StatementView::If { condition, then_branch, else_branch } => numerals(condition)
            && all_statement_numerals(then_branch) && match else_branch {
            Some(other) => statement_numerals(*other),
            None => true,
        },
        StatementView::Block(body) => all_statement_numerals(body),
    }
}

/// Whether every numeric literal of a list of statements is a decimal
/// numeral.
pub open spec fn all_statement_numerals(list: Seq<StatementView>) -> bool
    decreases list,
{
    forall|i: int| 0 <= i < list.len() ==> statement_numerals(#[trigger] list[i])
}

} // verus!
