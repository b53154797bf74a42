//! How an expression is written as tokens, and the proof that the parser
//! reads every expression back from what is written.
//!
//! An operand is put in parentheses where its operator binds looser than
//! its place allows: the left operand of an operator must bind at least as
//! tightly as the operator, the right operand more tightly. That the parser
//! reads back the same tree says that it groups as tightly as the operators
//! bind, to the left among equals, and that parentheses override both.
use vstd::prelude::*;
use crate::grammar::{
    additive, additive_rest, arguments, comparison, comparison_operator, comparison_rest,
    expression, factor, failed, found, logical, logical_operator, logical_rest,
    starts_with_symbol, term, term_rest, OperatorScan, Parsed, ParsedList,
};
use crate::lexer::token_views;
use crate::statement::{
    expression_views, ComparisonOperator, Expression, ExpressionView, LogicalOperator, Operator,
};
use crate::token::{Token, TokenView};

verus! {

/// How tightly the operator at the root of an expression binds: 0 for
/// `&&` and `||`, 1 for comparisons, 2 for `+` and `-`, 3 for `*` and `/`,
/// 4 for what has no operator at its root.
pub open spec fn rank(e: ExpressionView) -> nat {
    match e {
        ExpressionView::LogicalOp(_, _, _) => 0,
        ExpressionView::ComparisonOp(_, _, _) => 1,
        ExpressionView::BinaryOp(_, op, _) => match op {
            Operator::Add | Operator::Sub => 2,
            Operator::Mul | Operator::Div => 3,
        },
        _ => 4,
    }
}

/// The symbol of an arithmetic operator.
pub open spec fn arithmetic_symbol(op: Operator) -> char {
    match op {
        Operator::Add => '+',
        Operator::Sub => '-',
        Operator::Mul => '*',
        Operator::Div => '/',
    }
}

/// The tokens of a comparison operator.
pub open spec fn comparison_tokens(op: ComparisonOperator) -> Seq<TokenView> {
    match op {
        ComparisonOperator::Equal => seq![TokenView::Symbol('='), TokenView::Symbol('=')],
        ComparisonOperator::NotEqual => seq![TokenView::Symbol('!'), TokenView::Symbol('=')],
        ComparisonOperator::LessThan => seq![TokenView::Symbol('<')],
        ComparisonOperator::GreaterThan => seq![TokenView::Symbol('>')],
        ComparisonOperator::LessThanOrEqual => seq![TokenView::Symbol('<'), TokenView::Symbol('=')],
        ComparisonOperator::GreaterThanOrEqual => seq![
            TokenView::Symbol('>'),
            TokenView::Symbol('='),
        ],
    }
}

/// The tokens of a logical operator.
pub open spec fn logical_tokens(op: LogicalOperator) -> Seq<TokenView> {
    match op {
        LogicalOperator::And => seq![TokenView::Symbol('&'), TokenView::Symbol('&')],
        LogicalOperator::Or => seq![TokenView::Symbol('|'), TokenView::Symbol('|')],
    }
}

/// An expression as tokens, in a place that takes operators of rank `min`
/// and tighter: in parentheses if its own rank is lower.
pub open spec fn written(e: ExpressionView, min: nat) -> Seq<TokenView>
    decreases e, 1nat,
{
    if rank(e) < min {
        seq![TokenView::Symbol('(')] + bare(e) + seq![TokenView::Symbol(')')]
    } else {
        bare(e)
    }
}

/// An expression as tokens, without parentheses around it.
pub open spec fn bare(e: ExpressionView) -> Seq<TokenView>
    decreases e, 0nat,
{
    match e {
        ExpressionView::Identifier(name) => seq![TokenView::Ident(name)],
        ExpressionView::Number(text) => seq![TokenView::Number(text)],
        ExpressionView::StringLiteral(text) => seq![TokenView::StringLiteral(text)],
        ExpressionView::BinaryOp(left, op, right) => written(*left, rank(e)) + seq![
            TokenView::Symbol(arithmetic_symbol(op)),
        ] + written(*right, rank(e) + 1),
        ExpressionView::ComparisonOp(left, op, right) => written(*left, 1) + comparison_tokens(op)
            + written(*right, 2),
        ExpressionView::LogicalOp(left, op, right) => written(*left, 0) + logical_tokens(op)
            + written(*right, 1),
        ExpressionView::FunctionCall { name, args } => seq![
            TokenView::Ident(name),
            TokenView::Symbol('('),
        ] + written_list(args) + seq![TokenView::Symbol(')')],
    }
}

/// Expressions as tokens, with commas between them.
pub open spec fn written_list(list: Seq<ExpressionView>) -> Seq<TokenView>
    decreases list, 0nat,
{
    if list.len() == 0 {
        Seq::empty()
    } else if list.len() == 1 {
        written(list[0], 0)
    } else {
        written(list[0], 0) + seq![TokenView::Symbol(',')] + written_list(list.drop_first())
    }
}

/// The left operand of the operator at the root.
pub open spec fn left_operand(e: ExpressionView) -> ExpressionView {
    match e {
        ExpressionView::BinaryOp(left, _, _) => *left,
        ExpressionView::ComparisonOp(left, _, _) => *left,
        ExpressionView::LogicalOp(left, _, _) => *left,
        _ => e,
    }
}

/// The right operand of the operator at the root.
pub open spec fn right_operand(e: ExpressionView) -> ExpressionView {
    match e {
        ExpressionView::BinaryOp(_, _, right) => *right,
        ExpressionView::ComparisonOp(_, _, right) => *right,
        ExpressionView::LogicalOp(_, _, right) => *right,
        _ => e,
    }
}

/// The tokens of the operator at the root.
pub open spec fn operator_tokens(e: ExpressionView) -> Seq<TokenView> {
    match e {
        ExpressionView::BinaryOp(_, op, _) => seq![TokenView::Symbol(arithmetic_symbol(op))],
        ExpressionView::ComparisonOp(_, op, _) => comparison_tokens(op),
        ExpressionView::LogicalOp(_, op, _) => logical_tokens(op),
        _ => Seq::empty(),
    }
}

/// The rule for operators of rank `m`; the rule for factors from 4 on.
#[verifier::opaque]
pub open spec fn level(m: nat, tokens: Seq<TokenView>) -> Parsed<ExpressionView> {
    if m == 0 {
        logical(tokens)
    } else if m == 1 {
        comparison(tokens)
    } else if m == 2 {
        additive(tokens)
    } else if m == 3 {
        term(tokens)
    } else {
        factor(tokens)
    }
}

/// What follows the left operand `left` at rank `m`: operators of that rank
/// and their right operands. Nothing follows a factor.
#[verifier::opaque]
pub open spec fn level_rest(m: nat, left: ExpressionView, tokens: Seq<TokenView>) -> Parsed<
    ExpressionView,
> {
    if m == 0 {
        logical_rest(left, tokens)
    } else if m == 1 {
        comparison_rest(left, tokens)
    } else if m == 2 {
        additive_rest(left, tokens)
    } else if m == 3 {
        term_rest(left, tokens)
    } else {
        found(left, tokens)
    }
}

/// The rule for the arguments of a call.
#[verifier::opaque]
pub open spec fn listed(tokens: Seq<TokenView>) -> ParsedList<ExpressionView> {
    arguments(tokens)
}

/// Whether a token goes on with an operand of rank `m`: an operator of that
/// rank or a tighter one, or a `(`, which makes a call of an identifier.
pub open spec fn continues(token: TokenView, m: nat) -> bool {
    ||| token == TokenView::Symbol('(')
    ||| m <= 3 && (token == TokenView::Symbol('*') || token == TokenView::Symbol('/'))
    ||| m <= 2 && (token == TokenView::Symbol('+') || token == TokenView::Symbol('-'))
    ||| m <= 1 && (token == TokenView::Symbol('=') || token == TokenView::Symbol('!') || token
        == TokenView::Symbol('<') || token == TokenView::Symbol('>'))
    ||| m == 0 && (token == TokenView::Symbol('&') || token == TokenView::Symbol('|'))
}

/// Whether an operand of rank `m` ends before `tokens`.
pub open spec fn ends(tokens: Seq<TokenView>, m: nat) -> bool {
    tokens.len() == 0 || !continues(tokens[0], m)
}

/// Behind the first token of a front, the others and the back are left.
pub proof fn lemma_drop_first_add(front: Seq<TokenView>, back: Seq<TokenView>)
    requires
        front.len() > 0,
    ensures
        (front + back).drop_first() == front.drop_first() + back,
        (front + back)[0] == front[0],
        (front + back).len() == front.len() + back.len(),
{
}

/// One token before a back and nothing else is left with the back.
pub proof fn lemma_drop_only(token: TokenView, back: Seq<TokenView>)
    ensures
        (seq![token] + back).drop_first() == back,
        (seq![token] + back)[0] == token,
        (seq![token] + back).len() == back.len() + 1,
{
}

/// What is written begins with an identifier, a literal or a `(`.
pub proof fn lemma_written_starts(e: ExpressionView, min: nat)
    ensures
        written(e, min).len() > 0,
        written(e, min)[0] is Ident || written(e, min)[0] is Number || written(e, min)[0]
            is StringLiteral || written(e, min)[0] == TokenView::Symbol('('),
    decreases e,
{
    if rank(e) >= min {
        match e {
            ExpressionView::BinaryOp(left, op, right) => {
                lemma_written_starts(*left, rank(e));
            },
            ExpressionView::ComparisonOp(left, op, right) => {
                lemma_written_starts(*left, 1);
            },
            ExpressionView::LogicalOp(left, op, right) => {
                lemma_written_starts(*left, 0);
            },
            _ => {},
        }
    }
}

proof fn lemma_level_at(m: nat, tokens: Seq<TokenView>)
    ensures
        m == 0 ==> level(m, tokens) == logical(tokens),
        m == 1 ==> level(m, tokens) == comparison(tokens),
        m == 2 ==> level(m, tokens) == additive(tokens),
        m == 3 ==> level(m, tokens) == term(tokens),
        m >= 4 ==> level(m, tokens) == factor(tokens),
{
    reveal(level);
}

proof fn lemma_logical_rest_at(left: ExpressionView, tokens: Seq<TokenView>)
    ensures
        level_rest(0, left, tokens) == logical_rest(left, tokens),
{
    reveal(level_rest);
}

proof fn lemma_comparison_rest_at(left: ExpressionView, tokens: Seq<TokenView>)
    ensures
        level_rest(1, left, tokens) == comparison_rest(left, tokens),
{
    reveal(level_rest);
}

proof fn lemma_additive_rest_at(left: ExpressionView, tokens: Seq<TokenView>)
    ensures
        level_rest(2, left, tokens) == additive_rest(left, tokens),
{
    reveal(level_rest);
}

proof fn lemma_term_rest_at(left: ExpressionView, tokens: Seq<TokenView>)
    ensures
        level_rest(3, left, tokens) == term_rest(left, tokens),
{
    reveal(level_rest);
}

proof fn lemma_factor_rest_at(m: nat, left: ExpressionView, tokens: Seq<TokenView>)
    requires
        m >= 4,
    ensures
        level_rest(m, left, tokens) == found(left, tokens),
{
    reveal(level_rest);
}

/// Where an operand of rank `m` ends, nothing follows it at that rank.
pub proof fn lemma_level_rest_ends(m: nat, left: ExpressionView, tokens: Seq<TokenView>)
    requires
        ends(tokens, m),
    ensures
        level_rest(m, left, tokens) == found(left, tokens),
{
    reveal(level_rest);
}

/// An operand that was read at rank `k` is the left operand at every lower
/// rank `m`, if no operator between the two ranks follows it.
pub proof fn lemma_lift(
    k: nat,
    m: nat,
    tokens: Seq<TokenView>,
    left: ExpressionView,
    rest: Seq<TokenView>,
)
    requires
        m <= k,
        level(k, tokens) == level_rest(k, left, rest),
        ends(rest, m + 1),
        rest.len() < tokens.len(),
    ensures
        level(m, tokens) == level_rest(m, left, rest),
    decreases k - m,
{
    if m < k {
        lemma_lift(k, m + 1, tokens, left, rest);
        lemma_level_rest_ends(m + 1, left, rest);
        reveal(level);
        reveal(level_rest);
    }
}

/// A rule of any rank fails where the factor that it begins with fails.
pub proof fn lemma_level_fails(m: nat, tokens: Seq<TokenView>)
    requires
        factor(tokens).node is None,
    ensures
        level(m, tokens) == failed::<ExpressionView>(factor(tokens).rest),
{
    reveal(level);
}

proof fn lemma_term_step(
    left: ExpressionView,
    op: Operator,
    right: ExpressionView,
    operand: Seq<TokenView>,
    suffix: Seq<TokenView>,
)
    requires
        op == Operator::Mul || op == Operator::Div,
        level(4, operand + suffix) == found(right, suffix),
    ensures
        level_rest(3, left, seq![TokenView::Symbol(arithmetic_symbol(op))] + operand + suffix)
            == level_rest(
            3,
            ExpressionView::BinaryOp(Box::new(left), op, Box::new(right)),
            suffix,
        ),
{
    let sign = TokenView::Symbol(arithmetic_symbol(op));
    let all = seq![sign] + operand + suffix;
    assert(all == seq![sign] + (operand + suffix));
    lemma_drop_only(sign, operand + suffix);
    lemma_level_at(4, operand + suffix);
    lemma_term_rest_at(left, all);
    lemma_term_rest_at(ExpressionView::BinaryOp(Box::new(left), op, Box::new(right)), suffix);
}

proof fn lemma_additive_step(
    left: ExpressionView,
    op: Operator,
    right: ExpressionView,
    operand: Seq<TokenView>,
    suffix: Seq<TokenView>,
)
    requires
        op == Operator::Add || op == Operator::Sub,
        level(3, operand + suffix) == found(right, suffix),
    ensures
        level_rest(2, left, seq![TokenView::Symbol(arithmetic_symbol(op))] + operand + suffix)
            == level_rest(
            2,
            ExpressionView::BinaryOp(Box::new(left), op, Box::new(right)),
            suffix,
        ),
{
    let sign = TokenView::Symbol(arithmetic_symbol(op));
    let all = seq![sign] + operand + suffix;
    assert(all == seq![sign] + (operand + suffix));
    lemma_drop_only(sign, operand + suffix);
    lemma_level_at(3, operand + suffix);
    lemma_additive_rest_at(left, all);
    lemma_additive_rest_at(ExpressionView::BinaryOp(Box::new(left), op, Box::new(right)), suffix);
}

proof fn lemma_comparison_step(
    left: ExpressionView,
    op: ComparisonOperator,
    right: ExpressionView,
    operand: Seq<TokenView>,
    suffix: Seq<TokenView>,
)
    requires
        operand.len() > 0,
        operand[0] != TokenView::Symbol('='),
        level(2, operand + suffix) == found(right, suffix),
    ensures
        level_rest(1, left, comparison_tokens(op) + operand + suffix) == level_rest(
            1,
            ExpressionView::ComparisonOp(Box::new(left), op, Box::new(right)),
            suffix,
        ),
{
    let sign = comparison_tokens(op);
    let all = sign + operand + suffix;
    let behind = operand + suffix;
    assert(all == sign + behind);
    lemma_drop_first_add(sign, behind);
    lemma_drop_first_add(operand, suffix);
    if sign.len() == 2 {
        assert(sign.drop_first() == seq![sign[1]]);
        lemma_drop_only(sign[1], behind);
    } else {
        assert(sign.drop_first() + behind == behind);
    }
    assert(comparison_operator(all) == OperatorScan::Present { op, rest: behind });
    lemma_level_at(2, behind);
    lemma_comparison_rest_at(left, all);
    lemma_comparison_rest_at(
        ExpressionView::ComparisonOp(Box::new(left), op, Box::new(right)),
        suffix,
    );
}

proof fn lemma_logical_step(
    left: ExpressionView,
    op: LogicalOperator,
    right: ExpressionView,
    operand: Seq<TokenView>,
    suffix: Seq<TokenView>,
)
    requires
        level(1, operand + suffix) == found(right, suffix),
    ensures
        level_rest(0, left, logical_tokens(op) + operand + suffix) == level_rest(
            0,
            ExpressionView::LogicalOp(Box::new(left), op, Box::new(right)),
            suffix,
        ),
{
    let sign = logical_tokens(op);
    let all = sign + operand + suffix;
    let behind = operand + suffix;
    assert(all == sign + behind);
    lemma_drop_first_add(sign, behind);
    assert(sign.drop_first() == seq![sign[1]]);
    lemma_drop_only(sign[1], behind);
    assert(logical_operator(all) == OperatorScan::Present { op, rest: behind });
    lemma_level_at(1, behind);
    lemma_logical_rest_at(left, all);
    lemma_logical_rest_at(ExpressionView::LogicalOp(Box::new(left), op, Box::new(right)), suffix);
}

/// An operator and its right operand, read behind the left operand, make
/// the expression with that operator at its root; what follows is read as
/// following that expression.
pub proof fn lemma_operator_step(e: ExpressionView, operand: Seq<TokenView>, suffix: Seq<TokenView>)
    requires
        rank(e) <= 3,
        operand.len() > 0,
        operand[0] != TokenView::Symbol('='),
        level(rank(e) + 1, operand + suffix) == found(right_operand(e), suffix),
    ensures
        level_rest(rank(e), left_operand(e), operator_tokens(e) + operand + suffix) == level_rest(
            rank(e),
            e,
            suffix,
        ),
{
    match e {
        ExpressionView::BinaryOp(left, op, right) => {
            assert(e == ExpressionView::BinaryOp(Box::new(*left), op, Box::new(*right)));
            if op == Operator::Mul || op == Operator::Div {
                lemma_term_step(*left, op, *right, operand, suffix);
            } else {
                lemma_additive_step(*left, op, *right, operand, suffix);
            }
        },
        ExpressionView::ComparisonOp(left, op, right) => {
            assert(e == ExpressionView::ComparisonOp(Box::new(*left), op, Box::new(*right)));
            lemma_comparison_step(*left, op, *right, operand, suffix);
        },
        ExpressionView::LogicalOp(left, op, right) => {
            assert(e == ExpressionView::LogicalOp(Box::new(*left), op, Box::new(*right)));
            lemma_logical_step(*left, op, *right, operand, suffix);
        },
        _ => {},
    }
}

/// An identifier or a literal is read as it is, unless a `(` follows.
proof fn lemma_atom(e: ExpressionView, suffix: Seq<TokenView>)
    requires
        e is Identifier || e is Number || e is StringLiteral,
        !starts_with_symbol(suffix, '('),
    ensures
        level(4, bare(e) + suffix) == found(e, suffix),
{
    lemma_level_at(4, bare(e) + suffix);
    lemma_drop_only(bare(e)[0], suffix);
    assert(bare(e) == seq![bare(e)[0]]);
}

/// What is read between parentheses is read as a factor.
proof fn lemma_parenthesized(e: ExpressionView, inner: Seq<TokenView>, suffix: Seq<TokenView>)
    requires
        level(0, inner + (seq![TokenView::Symbol(')')] + suffix)) == found(
            e,
            seq![TokenView::Symbol(')')] + suffix,
        ),
    ensures
        level(
            4,
            seq![TokenView::Symbol('(')] + inner + seq![TokenView::Symbol(')')] + suffix,
        ) == found(e, suffix),
{
    let open = TokenView::Symbol('(');
    let close = TokenView::Symbol(')');
    let all = seq![open] + inner + seq![close] + suffix;
    let behind = inner + (seq![close] + suffix);
    assert(all == seq![open] + behind);
    lemma_drop_only(open, behind);
    lemma_drop_only(close, suffix);
    lemma_level_at(4, all);
    lemma_level_at(0, behind);
    assert(expression(behind) == logical(behind));
}

/// A name, `(`, arguments and `)` are read as a call.
proof fn lemma_call(
    name: Seq<char>,
    args: Seq<ExpressionView>,
    list: Seq<TokenView>,
    suffix: Seq<TokenView>,
)
    requires
        listed(list + (seq![TokenView::Symbol(')')] + suffix)) == (ParsedList {
            items: args,
            rest: seq![TokenView::Symbol(')')] + suffix,
            complete: true,
        }),
    ensures
        level(
            4,
            seq![TokenView::Ident(name), TokenView::Symbol('(')] + list + seq![
                TokenView::Symbol(')'),
            ] + suffix,
        ) == found(ExpressionView::FunctionCall { name, args }, suffix),
{
    reveal(listed);
    let open = TokenView::Symbol('(');
    let close = TokenView::Symbol(')');
    let all = seq![TokenView::Ident(name), open] + list + seq![close] + suffix;
    let inside = list + (seq![close] + suffix);
    assert(all == seq![TokenView::Ident(name)] + (seq![open] + inside));
    lemma_drop_only(TokenView::Ident(name), seq![open] + inside);
    lemma_drop_only(open, inside);
    lemma_drop_only(close, suffix);
    lemma_level_at(4, all);
}

/// Before a `)` the list of arguments is empty.
proof fn lemma_list_empty(suffix: Seq<TokenView>)
    requires
        starts_with_symbol(suffix, ')'),
    ensures
        listed(suffix) == (ParsedList {
            items: Seq::<ExpressionView>::empty(),
            rest: suffix,
            complete: true,
        }),
{
    reveal(listed);
    lemma_level_fails(0, suffix);
    lemma_level_at(0, suffix);
    assert(expression(suffix) == logical(suffix));
}

/// An argument that no comma follows is the last.
proof fn lemma_list_one(a: ExpressionView, first: Seq<TokenView>, suffix: Seq<TokenView>)
    requires
        level(0, first + suffix) == found(a, suffix),
        !starts_with_symbol(suffix, ','),
    ensures
        listed(first + suffix) == (ParsedList { items: seq![a], rest: suffix, complete: true }),
{
    reveal(listed);
    lemma_level_at(0, first + suffix);
    assert(expression(first + suffix) == logical(first + suffix));
}

/// An argument, a comma and more arguments are a list.
proof fn lemma_list_more(
    a: ExpressionView,
    first: Seq<TokenView>,
    items: Seq<ExpressionView>,
    more: Seq<TokenView>,
    suffix: Seq<TokenView>,
)
    requires
        first.len() > 0,
        level(0, first + (seq![TokenView::Symbol(',')] + (more + suffix))) == found(
            a,
            seq![TokenView::Symbol(',')] + (more + suffix),
        ),
        listed(more + suffix) == (ParsedList { items, rest: suffix, complete: true }),
        items.len() > 0,
    ensures
        listed(first + seq![TokenView::Symbol(',')] + more + suffix) == (ParsedList {
            items: seq![a] + items,
            rest: suffix,
            complete: true,
        }),
{
    reveal(listed);
    let comma = TokenView::Symbol(',');
    let all = first + seq![comma] + more + suffix;
    assert(all == first + (seq![comma] + (more + suffix)));
    lemma_level_at(0, all);
    assert(expression(all) == logical(all));
    lemma_drop_only(comma, more + suffix);
}

/// What is written for an operator is what is written for its operands, with
/// the tokens of the operator between them.
proof fn lemma_bare_parts(e: ExpressionView)
    requires
        rank(e) <= 3,
    ensures
        bare(e) == written(left_operand(e), rank(e)) + operator_tokens(e) + written(
            right_operand(e),
            rank(e) + 1,
        ),
        operator_tokens(e).len() > 0,
        !continues(operator_tokens(e)[0], rank(e) + 1),
{
}

/// The rule of rank `m` reads `e` from what is written for it in a place of
/// that rank, and goes on behind it as behind the left operand `e`,
/// whatever follows, if that is no operator that binds tighter than rank
/// `m` and no `(`.
pub proof fn lemma_read_back_at(e: ExpressionView, m: nat, suffix: Seq<TokenView>)
    requires
        m <= 4,
        ends(suffix, m + 1),
    ensures
        level(m, written(e, m) + suffix) == level_rest(m, e, suffix),
    decreases e, m,
{
    let all = written(e, m) + suffix;
    lemma_written_starts(e, m);
    if rank(e) < m {
        let close = seq![TokenView::Symbol(')')] + suffix;
        lemma_read_back_at(e, 0, close);
        lemma_level_rest_ends(0, e, close);
        lemma_parenthesized(e, bare(e), suffix);
        lemma_factor_rest_at(4, e, suffix);
        lemma_lift(4, m, all, e, suffix);
    } else if rank(e) == 4 {
        match e {
            ExpressionView::FunctionCall { name, args } => {
                lemma_list_read_back(args, seq![TokenView::Symbol(')')] + suffix);
                lemma_call(name, args, written_list(args), suffix);
            },
            _ => {
                lemma_atom(e, suffix);
            },
        }
        lemma_factor_rest_at(4, e, suffix);
        lemma_lift(4, m, all, e, suffix);
    } else {
        let k = rank(e);
        let left = written(left_operand(e), k);
        let sign = operator_tokens(e);
        let right = written(right_operand(e), k + 1);
        lemma_bare_parts(e);
        assert(all == left + (sign + right + suffix));
        assert((sign + right + suffix)[0] == sign[0]);
        lemma_read_back_at(left_operand(e), k, sign + right + suffix);
        lemma_read_back_at(right_operand(e), k + 1, suffix);
        lemma_level_rest_ends(k + 1, right_operand(e), suffix);
        lemma_written_starts(right_operand(e), k + 1);
        lemma_operator_step(e, right, suffix);
        lemma_lift(k, m, all, e, suffix);
    }
}

/// The rule for arguments reads a list of expressions from what is written
/// for it before a `)`.
pub proof fn lemma_list_read_back(list: Seq<ExpressionView>, suffix: Seq<TokenView>)
    requires
        starts_with_symbol(suffix, ')'),
    ensures
        listed(written_list(list) + suffix) == (ParsedList {
            items: list,
            rest: suffix,
            complete: true,
        }),
    decreases list, 0nat,
{
    if list.len() == 0 {
        lemma_list_empty(suffix);
        assert(written_list(list) + suffix == suffix);
        assert(list == Seq::<ExpressionView>::empty());
    } else if list.len() == 1 {
        lemma_read_back_at(list[0], 0, suffix);
        lemma_level_rest_ends(0, list[0], suffix);
        lemma_list_one(list[0], written(list[0], 0), suffix);
        assert(list == seq![list[0]]);
    } else {
        let first = written(list[0], 0);
        let more = written_list(list.drop_first());
        let comma = seq![TokenView::Symbol(',')];
        let behind = comma + (more + suffix);
        assert(behind[0] == comma[0]);
        lemma_written_starts(list[0], 0);
        lemma_read_back_at(list[0], 0, behind);
        lemma_level_rest_ends(0, list[0], behind);
        lemma_list_read_back(list.drop_first(), suffix);
        lemma_list_more(list[0], first, list.drop_first(), more, suffix);
        assert(list == seq![list[0]] + list.drop_first());
    }
}

/// The parser reads every expression back from what is written for it: the
/// same tree, and all the tokens taken, whatever follows, if that is no
/// operator and no `(`.
///
/// So the parser groups `*` and `/` tighter than `+` and `-`, these tighter
/// than comparisons, these tighter than `&&` and `||`, operators of one
/// rank to the left, and what stands in parentheses first.
pub proof fn lemma_read_back(e: ExpressionView, suffix: Seq<TokenView>)
    requires
        ends(suffix, 0),
    ensures
        expression(written(e, 0) + suffix) == found(e, suffix),
{
    lemma_read_back_at(e, 0, suffix);
    lemma_level_rest_ends(0, e, suffix);
    lemma_level_at(0, written(e, 0) + suffix);
    assert(expression(written(e, 0) + suffix) == logical(written(e, 0) + suffix));
}

/// The values of a list that grew by one token.
proof fn lemma_token_views_push(list: Seq<Token>, token: Token)
    ensures
        token_views(list.push(token)) == token_views(list) + seq![token@],
{
}

/// Puts the symbol `c` behind `out`.
fn put(out: &mut Vec<Token>, c: char)
    ensures
        token_views(final(out)@) == token_views(old(out)@) + seq![TokenView::Symbol(c)],
{
    proof {
        lemma_token_views_push(out@, Token::Symbol(c));
    }
    out.push(Token::Symbol(c));
}

impl Operator {
    /// The character of the operator.
    pub fn character(&self) -> (c: char)
        ensures
            c == arithmetic_symbol(*self),
    {
        match self {
            Operator::Add => '+',
            Operator::Sub => '-',
            Operator::Mul => '*',
            Operator::Div => '/',
        }
    }
}

impl Expression {
    /// How tightly the operator at the root binds.
    pub fn rank(&self) -> (r: u8)
        ensures
            r == rank(self@),
    {
        match self {
            Expression::LogicalOp(_, _, _) => 0,
            Expression::ComparisonOp(_, _, _) => 1,
            Expression::BinaryOp(_, op, _) => match op {
                Operator::Add | Operator::Sub => 2,
                Operator::Mul | Operator::Div => 3,
            },
            _ => 4,
        }
    }

    /// The expression as tokens, with parentheses where its grouping needs
    /// them. The parser reads the expression back from these tokens
    /// (`lemma_read_back`).
    pub fn written(&self) -> (tokens: Vec<Token>)
        ensures
            token_views(tokens@) == written(self@, 0),
    {
        let mut tokens: Vec<Token> = Vec::new();
        self.write(0, &mut tokens);
        proof {
            assert(Seq::<TokenView>::empty() + written(self@, 0) == written(self@, 0));
        }
        tokens
    }

    /// Puts the expression behind `out`, as it is written in a place that
    /// takes operators of rank `min` and tighter.
    fn write(&self, min: u8, out: &mut Vec<Token>)
        requires
            min <= 4,
        ensures
            token_views(final(out)@) == token_views(old(out)@) + written(self@, min as nat),
        decreases self, 1nat,
    {
        let ghost before = token_views(out@);
        if self.rank() < min {
            put(out, '(');
            self.write_bare(out);
            put(out, ')');
            proof {
                assert(token_views(out@) == before + (seq![TokenView::Symbol('(')] + bare(self@)
                    + seq![TokenView::Symbol(')')]));
            }
        } else {
            self.write_bare(out);
        }
    }

    /// Puts the expression behind `out`, without parentheses around it.
    fn write_bare(&self, out: &mut Vec<Token>)
        ensures
            token_views(final(out)@) == token_views(old(out)@) + bare(self@),
        decreases self, 0nat,
    {
        let ghost before = token_views(out@);
        match self {
            Expression::Identifier(name) => {
                proof {
                    lemma_token_views_push(out@, Token::Ident(*name));
                }
                out.push(Token::Ident(name.clone()));
            },
            Expression::Number(text) => {
                proof {
                    lemma_token_views_push(out@, Token::Number(*text));
                }
                out.push(Token::Number(text.clone()));
            },
            Expression::StringLiteral(text) => {
                proof {
                    lemma_token_views_push(out@, Token::StringLiteral(*text));
                }
                out.push(Token::StringLiteral(text.clone()));
            },
            Expression::BinaryOp(left, op, right) => {
                let rank = self.rank();
                left.write(rank, out);
                put(out, op.character());
                right.write(rank + 1, out);
                proof {
                    assert(token_views(out@) == before + (written(left@, rank as nat) + seq![
                        TokenView::Symbol(arithmetic_symbol(*op)),
                    ] + written(right@, rank as nat + 1)));
                }
            },
            Expression::ComparisonOp(left, op, right) => {
                left.write(1, out);
                match op {
                    ComparisonOperator::Equal => {
                        put(out, '=');
                        put(out, '=');
                    },
                    ComparisonOperator::NotEqual => {
                        put(out, '!');
                        put(out, '=');
                    },
                    ComparisonOperator::LessThan => {
                        put(out, '<');
                    },
                    ComparisonOperator::GreaterThan => {
                        put(out, '>');
                    },
                    ComparisonOperator::LessThanOrEqual => {
                        put(out, '<');
                        put(out, '=');
                    },
                    ComparisonOperator::GreaterThanOrEqual => {
                        put(out, '>');
                        put(out, '=');
                    },
                }
                proof {
                    assert(token_views(out@) == before + written(left@, 1) + comparison_tokens(
                        *op,
                    ));
                }
                right.write(2, out);
                proof {
                    assert(token_views(out@) == before + (written(left@, 1) + comparison_tokens(
                        *op,
                    ) + written(right@, 2)));
                }
            },
            Expression::LogicalOp(left, op, right) => {
                left.write(0, out);
                match op {
                    LogicalOperator::And => {
                        put(out, '&');
                        put(out, '&');
                    },
                    LogicalOperator::Or => {
                        put(out, '|');
                        put(out, '|');
                    },
                }
                proof {
                    assert(token_views(out@) == before + written(left@, 0) + logical_tokens(*op));
                }
                right.write(1, out);
                proof {
                    assert(token_views(out@) == before + (written(left@, 0) + logical_tokens(*op)
                        + written(right@, 1)));
                }
            },
            Expression::FunctionCall { name, args } => {
                proof {
                    lemma_token_views_push(out@, Token::Ident(*name));
                }
                out.push(Token::Ident(name.clone()));
                put(out, '(');
                write_list(args, out);
                put(out, ')');
                proof {
                    assert(token_views(out@) == before + (seq![
                        TokenView::Ident(name@),
                        TokenView::Symbol('('),
                    ] + written_list(expression_views(args@)) + seq![TokenView::Symbol(')')]));
                }
            },
        }
    }
}

/// Puts expressions behind `out`, with commas between them.
fn write_list(args: &Vec<Expression>, out: &mut Vec<Token>)
    ensures
        token_views(final(out)@) == token_views(old(out)@) + written_list(
            expression_views(args@),
        ),
    decreases args,
{
    let ghost head = token_views(out@);
    let ghost list = expression_views(args@);
    let mut i: usize = 0;
    proof {
        if args.len() > 0 {
            lemma_views_index(args@, 0);
        }
        assert(list.skip(0) == list);
        assert(head + Seq::<TokenView>::empty() + written_list(list) == head + written_list(list));
    }
    while i < args.len()
        invariant
            i <= args.len(),
            list == expression_views(args@),
            list.len() == args.len(),
            head + written_list(list) == token_views(out@) + (if 0 < i < args.len() {
                seq![TokenView::Symbol(',')]
            } else {
                Seq::<TokenView>::empty()
            }) + written_list(list.skip(i as int)),
        decreases args.len() - i,
    {
        let ghost here = token_views(out@);
        let ghost left = list.skip(i as int);
        proof {
            lemma_views_index(args@, i as int);
            assert(left[0] == list[i as int]);
            assert(left.drop_first() == list.skip(i + 1));
        }
        if i > 0 {
            put(out, ',');
        }
        args[i].write(0, out);
        proof {
            let item = written(list[i as int], 0);
            let comma = seq![TokenView::Symbol(',')];
            let more = written_list(list.skip(i + 1));
            if left.len() == 1 {
                assert(more.len() == 0);
                assert(written_list(left) == item);
                if i > 0 {
                    assert(here + comma + item == here + comma + written_list(left));
                    assert(here + comma + item + Seq::<TokenView>::empty() + more == here + comma
                        + item);
                } else {
                    assert(here + item + Seq::<TokenView>::empty() + more == here
                        + Seq::<TokenView>::empty() + written_list(left));
                }
            } else {
                assert(written_list(left) == item + comma + more);
                if i > 0 {
                    assert(here + comma + item + comma + more == here + comma + written_list(left));
                } else {
                    assert(here + item + comma + more == here + Seq::<TokenView>::empty()
                        + written_list(left));
                }
            }
        }
        i = i + 1;
    }
    proof {
        assert(written_list(list.skip(args.len() as int)).len() == 0);
        assert(token_views(out@) + Seq::<TokenView>::empty() + written_list(
            list.skip(args.len() as int),
        ) == token_views(out@));
    }
}

/// The value of a list holds the values of its items, each in its place.
proof fn lemma_views_index(list: Seq<Expression>, i: int)
    requires
        0 <= i < list.len(),
    ensures
        expression_views(list).len() == list.len(),
        expression_views(list)[i] == list[i]@,
    decreases list.len(),
{
    let init = list.drop_last();
    if i < init.len() {
        lemma_views_index(init, i);
    } else if init.len() > 0 {
        lemma_views_index(init, 0);
    } else {
        assert(expression_views(init).len() == 0);
    }
}

} // verus!
