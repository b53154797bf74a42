//! The syntax tree as text, for inspection.
use vstd::prelude::*;
use vstd::string::StringExecFns;
use crate::statement::{
    expression_views, statement_views, ComparisonOperator, Expression, ExpressionView,
    LogicalOperator, Operator, Statement, StatementView,
};

verus! {

/// The symbol of an arithmetic operator.
pub open spec fn operator_text(op: Operator) -> Seq<char> {
    match op {
        Operator::Add => "+"@,
        Operator::Sub => "-"@,
        Operator::Mul => "*"@,
        Operator::Div => "/"@,
    }
}

/// The symbol of a comparison operator.
pub open spec fn comparison_text(op: ComparisonOperator) -> Seq<char> {
    match op {
        ComparisonOperator::Equal => "=="@,
        ComparisonOperator::NotEqual => "!="@,
        ComparisonOperator::LessThan => "<"@,
        ComparisonOperator::GreaterThan => ">"@,
        ComparisonOperator::LessThanOrEqual => "<="@,
        ComparisonOperator::GreaterThanOrEqual => ">="@,
    }
}

/// The symbol of a logical operator.
pub open spec fn logical_text(op: LogicalOperator) -> Seq<char> {
    match op {
        LogicalOperator::And => "&&"@,
        LogicalOperator::Or => "||"@,
    }
}

/// Two operands and the symbol of their operator, in parentheses.
pub open spec fn infix_text(left: Seq<char>, symbol: Seq<char>, right: Seq<char>) -> Seq<char> {
    "("@ + left + " "@ + symbol + " "@ + right + ")"@
}

/// A call: the name and the arguments in parentheses.
pub open spec fn call_text(name: Seq<char>, args: Seq<char>) -> Seq<char> {
    "FunctionCall: "@ + name + "("@ + args + ")"@
}

/// An expression as text. Every operator stands in parentheses with its
/// operands, so the text shows how the expression is grouped. A numeric
/// literal is shown as it was written.
pub open spec fn expression_text(e: ExpressionView) -> Seq<char>
    decreases e,
{
    match e {
        ExpressionView::Identifier(name) => "Ident: "@ + name,
        ExpressionView::Number(text) => text,
        ExpressionView::StringLiteral(text) => "StringLiteral: "@ + text,
        ExpressionView::BinaryOp(left, op, right) => infix_text(
            expression_text(*left),
            operator_text(op),
            expression_text(*right),
        ),
        ExpressionView::ComparisonOp(left, op, right) => infix_text(
            expression_text(*left),
            comparison_text(op),
            expression_text(*right),
        ),
        ExpressionView::LogicalOp(left, op, right) => infix_text(
            expression_text(*left),
            logical_text(op),
            expression_text(*right),
        ),
        ExpressionView::FunctionCall { name, args } => call_text(name, arguments_text(args)),
    }
}

/// Expressions as text, with a comma and a blank between them.
pub open spec fn arguments_text(list: Seq<ExpressionView>) -> Seq<char>
    decreases list,
{
    if list.len() == 0 {
        Seq::empty()
    } else if list.len() == 1 {
        expression_text(list[0])
    } else {
        arguments_text(list.drop_last()) + ", "@ + expression_text(list.last())
    }
}

/// A statement as text. The statements of a branch stand on lines of their
/// own, each behind four blanks.
pub open spec fn statement_text(s: StatementView) -> Seq<char>
    decreases s, 0nat,
{
    match s {
        StatementView::VarDeclaration { name, var_type, value } => "Var: "@ + name + ": "@
            + (match var_type {
            Some(t) => t,
            None => "unknown"@,
        }) + " = "@ + expression_text(value),
        StatementView::FunctionCall { name, args } => call_text(name, arguments_text(args)),
        StatementView::If { condition, then_branch, else_branch } => "If: ("@ + expression_text(
            condition,
        ) + ") {\n"@ + lines_text(then_branch) + "}"@ + (match else_branch {
            Some(other) => else_text(*other),
            None => Seq::empty(),
        }),
        StatementView::Block(body) => "{\n"@ + lines_text(body) + "}"@,
    }
}

/// The `else` arm of a conditional as text: another conditional or a block.
/// Anything else is not shown.
pub open spec fn else_text(other: StatementView) -> Seq<char>
    decreases other, 1nat,
{
    match other {
        StatementView::If { .. } => " else "@ + statement_text(other),
        StatementView::Block(body) => " else {\n"@ + lines_text(body) + "}"@,
        _ => Seq::empty(),
    }
}

/// Statements as text, one to a line, each behind four blanks.
pub open spec fn lines_text(list: Seq<StatementView>) -> Seq<char>
    decreases list, 0nat,
{
    if list.len() == 0 {
        Seq::empty()
    } else {
        lines_text(list.drop_last()) + "    "@ + statement_text(list.last()) + "\n"@
    }
}

impl Operator {
    /// The symbol of the operator.
    pub fn symbol(&self) -> (text: &'static str)
        ensures
            text@ == operator_text(*self),
    {
        match self {
            Operator::Add => "+",
            Operator::Sub => "-",
            Operator::Mul => "*",
            Operator::Div => "/",
        }
    }
}

impl ComparisonOperator {
    /// The symbol of the operator.
    pub fn symbol(&self) -> (text: &'static str)
        ensures
            text@ == comparison_text(*self),
    {
        match self {
            ComparisonOperator::Equal => "==",
            ComparisonOperator::NotEqual => "!=",
            ComparisonOperator::LessThan => "<",
            ComparisonOperator::GreaterThan => ">",
            ComparisonOperator::LessThanOrEqual => "<=",
            ComparisonOperator::GreaterThanOrEqual => ">=",
        }
    }
}

impl LogicalOperator {
    /// The symbol of the operator.
    pub fn symbol(&self) -> (text: &'static str)
        ensures
            text@ == logical_text(*self),
    {
        match self {
            LogicalOperator::And => "&&",
            LogicalOperator::Or => "||",
        }
    }
}

/// Two operands and the symbol of their operator, in parentheses.
fn infix(left: String, symbol: &str, right: String) -> (text: String)
    ensures
        text@ == infix_text(left@, symbol@, right@),
{
    let mut text = String::from_str("(");
    text.append(left.as_str());
    text.append(" ");
    text.append(symbol);
    text.append(" ");
    text.append(right.as_str());
    text.append(")");
    text
}

/// A call: the name and the arguments in parentheses.
fn call(name: &String, args: &Vec<Expression>) -> (text: String)
    ensures
        text@ == call_text(name@, arguments_text(expression_views(args@))),
    decreases args,
{
    let mut text = String::from_str("FunctionCall: ");
    text.append(name.as_str());
    text.append("(");
    let mut i: usize = 0;
    let ghost mut shown: Seq<char> = Seq::empty();
    let ghost head = text@;
    proof {
        assert(head + shown == head);
        assert(args@.take(0) == Seq::<Expression>::empty());
    }
    while i < args.len()
        invariant
            i <= args.len(),
            text@ == head + shown,
            shown == arguments_text(expression_views(args@.take(i as int))),
        decreases args.len() - i,
    {
        proof {
            lemma_views_take(args@, i as int);
            let views = expression_views(args@.take(i + 1));
            assert(views.drop_last() == expression_views(args@.take(i as int)));
            assert(views.last() == args@[i as int]@);
        }
        if i > 0 {
            text.append(", ");
        }
        text.append(args[i].render().as_str());
        proof {
            let item = expression_text(args@[i as int]@);
            if i > 0 {
                assert(head + shown + ", "@ + item == head + (shown + ", "@ + item));
                shown = shown + ", "@ + item;
            } else {
                assert(head + shown + item == head + item);
                shown = item;
            }
        }
        i = i + 1;
    }
    proof {
        assert(args@.take(args.len() as int) == args@);
    }
    text.append(")");
    text
}

/// The values of the first expressions of a list are the first values of
/// the list.
proof fn lemma_views_take(list: Seq<Expression>, i: int)
    requires
        0 <= i < list.len(),
    ensures
        expression_views(list.take(i + 1)) == expression_views(list.take(i)).push(list[i]@),
        expression_views(list.take(i + 1)).len() == i + 1,
        expression_views(list.take(i)).len() == i,
    decreases i,
{
    assert(list.take(i + 1).drop_last() == list.take(i));
    if i > 0 {
        lemma_views_take(list, i - 1);
    }
}

/// The values of the first statements of a list are the first values of
/// the list.
proof fn lemma_statement_views_take(list: Seq<Statement>, i: int)
    requires
        0 <= i < list.len(),
    ensures
        statement_views(list.take(i + 1)) == statement_views(list.take(i)).push(list[i]@),
{
    assert(list.take(i + 1).drop_last() == list.take(i));
}

/// Statements as text, one to a line.
fn lines(list: &Vec<Statement>) -> (text: String)
    ensures
        text@ == lines_text(statement_views(list@)),
    decreases list,
{
    let mut text = String::new();
    let mut i: usize = 0;
    proof {
        assert(list@.take(0) == Seq::<Statement>::empty());
    }
    while i < list.len()
        invariant
            i <= list.len(),
            text@ == lines_text(statement_views(list@.take(i as int))),
        decreases list.len() - i,
    {
        proof {
            lemma_statement_views_take(list@, i as int);
            let views = statement_views(list@.take(i + 1));
            assert(views.drop_last() == statement_views(list@.take(i as int)));
            assert(views.last() == list@[i as int]@);
        }
        text.append("    ");
        text.append(list[i].render().as_str());
        text.append("\n");
        i = i + 1;
    }
    proof {
        assert(list@.take(list.len() as int) == list@);
    }
    text
}

impl Statement {
    /// The statement as text.
    pub fn render(&self) -> (text: String)
        ensures
            text@ == statement_text(self@),
        decreases self,
    {
        match self {
            Statement::VarDeclaration { name, var_type, value } => {
                let mut text = String::from_str("Var: ");
                text.append(name.as_str());
                text.append(": ");
                match var_type {
                    Some(t) => text.append(t.as_str()),
                    None => text.append("unknown"),
                }
                text.append(" = ");
                text.append(value.render().as_str());
                text
            },
            Statement::FunctionCall { name, args } => call(name, args),
            Statement::If { condition, then_branch, else_branch } => {
                let mut text = String::from_str("If: (");
                text.append(condition.render().as_str());
                text.append(") {\n");
                text.append(lines(then_branch).as_str());
                text.append("}");
                let ghost head = text@;
                match else_branch {
                    Some(other) => match &**other {
                        Statement::If { .. } => {
                            text.append(" else ");
                            text.append(other.render().as_str());
                            proof {
                                assert(text@ == head + (" else "@ + statement_text(other@)));
                            }
                        },
                        Statement::Block(body) => {
                            text.append(" else {\n");
                            text.append(lines(body).as_str());
                            text.append("}");
                            proof {
                                assert(text@ == head + (" else {\n"@ + lines_text(
                                    statement_views(body@),
                                ) + "}"@));
                            }
                        },
                        _ => {
                            proof {
                                assert(text@ == head + Seq::<char>::empty());
                            }
                        },
                    },
                    None => {
                        proof {
                            assert(text@ == head + Seq::<char>::empty());
                        }
                    },
                }
                text
            },
            Statement::Block(body) => {
                let mut text = String::from_str("{\n");
                text.append(lines(body).as_str());
                text.append("}");
                text
            },
        }
    }
}

impl Expression {
    /// The expression as text.
    pub fn render(&self) -> (text: String)
        ensures
            text@ == expression_text(self@),
        decreases self,
    {
        match self {
            Expression::Identifier(name) => {
                let mut text = String::from_str("Ident: ");
                text.append(name.as_str());
                text
            },
            Expression::Number(number) => number.clone(),
            Expression::StringLiteral(literal) => {
                let mut text = String::from_str("StringLiteral: ");
                text.append(literal.as_str());
                text
            },
            Expression::BinaryOp(left, op, right) => infix(
                left.render(),
                op.symbol(),
                right.render(),
            ),
            Expression::ComparisonOp(left, op, right) => infix(
                left.render(),
                op.symbol(),
                right.render(),
            ),
            Expression::LogicalOp(left, op, right) => infix(
                left.render(),
                op.symbol(),
                right.render(),
            ),
            Expression::FunctionCall { name, args } => call(name, args),
        }
    }
}

} // verus!
