//! The grammar, as functions from a sequence of tokens to what the parser
//! builds from its front and the tokens that it leaves.
//!
//! From loosest to tightest: logical (`&&`, `||`), comparison (`==`, `!=`,
//! `<`, `<=`, `>`, `>=`), additive (`+`, `-`), multiplicative (`*`, `/`),
//! factor. Every level is left-associative. A rule that fails yields no
//! node, but may have taken tokens; those stay taken.
//!
//! No rule leaves more tokens than it was given, and a rule for expressions
//! that succeeds leaves fewer (`progress`). Where a rule goes on with
//! what another rule has left, it says so by `shorter`, which shows that the
//! rules terminate and changes nothing.
use vstd::prelude::*;
use crate::diagnostic::Diagnostic;
use crate::statement::{
    all_shaped, shaped, shaped_else, ComparisonOperator, ExpressionView, LogicalOperator,
    Operator, StatementView,
};
use crate::token::TokenView;

verus! {

/// What a rule made of the front of a token sequence: the node, unless the
/// rule failed, and the tokens that are left either way.
pub ghost struct Parsed<T> {
    pub node: Option<T>,
    pub rest: Seq<TokenView>,
}

/// A list of nodes, the tokens that are left behind it, and whether the
/// list is complete: whether an item follows every comma.
pub ghost struct ParsedList<T> {
    pub items: Seq<T>,
    pub rest: Seq<TokenView>,
    pub complete: bool,
}

/// What a rule for statements made of the front of a token sequence: the
/// statement, unless the rule gave up; the tokens that are left; and the
/// diagnostics reported on the way, oldest first.
pub ghost struct ParsedStatement {
    pub node: Option<StatementView>,
    pub rest: Seq<TokenView>,
    pub notes: Seq<Diagnostic>,
}

/// A list of statements, the tokens that are left behind it, and the
/// diagnostics reported on the way, oldest first.
pub ghost struct ParsedBlock {
    pub items: Seq<StatementView>,
    pub rest: Seq<TokenView>,
    pub notes: Seq<Diagnostic>,
}

/// A rule that succeeded and left `rest`.
pub open spec fn found<T>(node: T, rest: Seq<TokenView>) -> Parsed<T> {
    Parsed { node: Some(node), rest }
}

/// A rule that failed and left `rest`.
pub open spec fn failed<T>(rest: Seq<TokenView>) -> Parsed<T> {
    Parsed { node: None, rest }
}

/// `rest`, which is shorter than `tokens`.
pub open spec fn shorter(rest: Seq<TokenView>, tokens: Seq<TokenView>) -> Seq<TokenView> {
    if rest.len() < tokens.len() {
        rest
    } else {
        Seq::empty()
    }
}

/// Whether the first token is the symbol `c`.
pub open spec fn starts_with_symbol(tokens: Seq<TokenView>, c: char) -> bool {
    tokens.len() > 0 && tokens[0] == TokenView::Symbol(c)
}

/// Whether the first token is the keyword `word`.
pub open spec fn starts_with_keyword(tokens: Seq<TokenView>, word: Seq<char>) -> bool {
    tokens.len() > 0 && tokens[0] == TokenView::Keyword(word)
}

/// What stands where a two-character operator may stand, and the tokens
/// behind it.
pub ghost enum OperatorScan<Op> {
    /// No operator of the level: the level ends here.
    Absent,
    /// An operator, with `rest` behind it.
    Present { op: Op, rest: Seq<TokenView> },
    /// The first half of an operator, without the second; `rest` is behind
    /// that half.
    Broken { rest: Seq<TokenView> },
}

/// The multiplicative operator that a token stands for.
pub open spec fn multiplicative_operator(token: TokenView) -> Option<Operator> {
    if token == TokenView::Symbol('*') {
        Some(Operator::Mul)
    } else if token == TokenView::Symbol('/') {
        Some(Operator::Div)
    } else {
        None
    }
}

/// The additive operator that a token stands for.
pub open spec fn additive_operator(token: TokenView) -> Option<Operator> {
    if token == TokenView::Symbol('+') {
        Some(Operator::Add)
    } else if token == TokenView::Symbol('-') {
        Some(Operator::Sub)
    } else {
        None
    }
}

/// An operator whose second half `=` is required: present with it, broken
/// without.
pub open spec fn with_equals<Op>(op: Op, behind: Seq<TokenView>) -> OperatorScan<Op> {
    if starts_with_symbol(behind, '=') {
        OperatorScan::Present { op, rest: behind.drop_first() }
    } else {
        OperatorScan::Broken { rest: behind }
    }
}

/// An operator that is `narrow` alone and `wide` with a `=` behind it.
pub open spec fn maybe_equals<Op>(narrow: Op, wide: Op, behind: Seq<TokenView>) -> OperatorScan<
    Op,
> {
    if starts_with_symbol(behind, '=') {
        OperatorScan::Present { op: wide, rest: behind.drop_first() }
    } else {
        OperatorScan::Present { op: narrow, rest: behind }
    }
}

/// The comparison operator at the front of `tokens`. `=` and `!` need a `=`
/// behind them; `<` and `>` may have one.
pub open spec fn comparison_operator(tokens: Seq<TokenView>) -> OperatorScan<ComparisonOperator> {
    if starts_with_symbol(tokens, '=') {
        with_equals(ComparisonOperator::Equal, tokens.drop_first())
    } else if starts_with_symbol(tokens, '!') {
        with_equals(ComparisonOperator::NotEqual, tokens.drop_first())
    } else if starts_with_symbol(tokens, '<') {
        maybe_equals(
            ComparisonOperator::LessThan,
            ComparisonOperator::LessThanOrEqual,
            tokens.drop_first(),
        )
    } else if starts_with_symbol(tokens, '>') {
        maybe_equals(
            ComparisonOperator::GreaterThan,
            ComparisonOperator::GreaterThanOrEqual,
            tokens.drop_first(),
        )
    } else {
        OperatorScan::Absent
    }
}

/// The logical operator at the front of `tokens`: `&&` or `||`, each made
/// of two tokens.
pub open spec fn logical_operator(tokens: Seq<TokenView>) -> OperatorScan<LogicalOperator> {
    if starts_with_symbol(tokens, '&') {
        if starts_with_symbol(tokens.drop_first(), '&') {
            OperatorScan::Present { op: LogicalOperator::And, rest: tokens.drop_first().drop_first() }
        } else {
            OperatorScan::Broken { rest: tokens.drop_first() }
        }
    } else if starts_with_symbol(tokens, '|') {
        if starts_with_symbol(tokens.drop_first(), '|') {
            OperatorScan::Present { op: LogicalOperator::Or, rest: tokens.drop_first().drop_first() }
        } else {
            OperatorScan::Broken { rest: tokens.drop_first() }
        }
    } else {
        OperatorScan::Absent
    }
}

/// A factor: a literal, an identifier, a call, or an expression in
/// parentheses. A closing parenthesis that is missing is not asked for.
pub open spec fn factor(tokens: Seq<TokenView>) -> Parsed<ExpressionView>
    decreases tokens.len(), 0nat,
{
    if tokens.len() == 0 {
        failed(tokens)
    } else {
        match tokens[0] {
            TokenView::Ident(name) => {
                if starts_with_symbol(tokens.drop_first(), '(') {
                    let call = call_arguments(tokens.drop_first());
                    match call.node {
                        Some(args) => found(ExpressionView::FunctionCall { name, args }, call.rest),
                        None => failed(call.rest),
                    }
                } else {
                    found(ExpressionView::Identifier(name), tokens.drop_first())
                }
            },
            TokenView::Number(text) => found(ExpressionView::Number(text), tokens.drop_first()),
            TokenView::StringLiteral(text) => found(
                ExpressionView::StringLiteral(text),
                tokens.drop_first(),
            ),
            TokenView::Symbol(c) => {
                if c == '(' {
                    let inner = expression(tokens.drop_first());
                    Parsed {
                        node: inner.node,
                        rest: if starts_with_symbol(inner.rest, ')') {
                            inner.rest.drop_first()
                        } else {
                            inner.rest
                        },
                    }
                } else {
                    failed(tokens)
                }
            },
            _ => failed(tokens),
        }
    }
}

/// The arguments of a call, from `(` to `)`. A comma that no argument
/// follows makes the call fail.
pub open spec fn call_arguments(tokens: Seq<TokenView>) -> Parsed<Seq<ExpressionView>>
    decreases tokens.len(), 11nat,
{
    if starts_with_symbol(tokens, '(') {
        let list = arguments(tokens.drop_first());
        if list.complete && starts_with_symbol(list.rest, ')') {
            found(list.items, list.rest.drop_first())
        } else {
            failed(list.rest)
        }
    } else {
        failed(tokens)
    }
}

/// Expressions separated by commas. The list ends with the first expression
/// that no comma follows, or before the first that fails.
pub open spec fn arguments(tokens: Seq<TokenView>) -> ParsedList<ExpressionView>
    decreases tokens.len(), 10nat,
{
    let first = expression(tokens);
    match first.node {
        None => ParsedList { items: Seq::empty(), rest: first.rest, complete: true },
        Some(node) => {
            if tokens.len() > 0 && starts_with_symbol(first.rest, ',') {
                let more = arguments(shorter(first.rest.drop_first(), tokens));
                ParsedList {
                    items: seq![node] + more.items,
                    rest: more.rest,
                    complete: more.complete && more.items.len() > 0,
                }
            } else {
                ParsedList { items: seq![node], rest: first.rest, complete: true }
            }
        },
    }
}

/// A product: factors joined by `*` and `/`.
pub open spec fn term(tokens: Seq<TokenView>) -> Parsed<ExpressionView>
    decreases tokens.len(), 2nat,
{
    let first = factor(tokens);
    match first.node {
        None => failed(first.rest),
        Some(left) => term_rest(left, shorter(first.rest, tokens)),
    }
}

/// What follows the left operand of a product.
pub open spec fn term_rest(left: ExpressionView, tokens: Seq<TokenView>) -> Parsed<ExpressionView>
    decreases tokens.len(), 1nat,
{
    if tokens.len() == 0 {
        found(left, tokens)
    } else {
        match multiplicative_operator(tokens[0]) {
            None => found(left, tokens),
            Some(op) => {
                let operand = factor(tokens.drop_first());
                match operand.node {
                    None => failed(operand.rest),
                    Some(right) => term_rest(
                        ExpressionView::BinaryOp(Box::new(left), op, Box::new(right)),
                        shorter(operand.rest, tokens),
                    ),
                }
            },
        }
    }
}

/// A sum: products joined by `+` and `-`.
pub open spec fn additive(tokens: Seq<TokenView>) -> Parsed<ExpressionView>
    decreases tokens.len(), 4nat,
{
    let first = term(tokens);
    match first.node {
        None => failed(first.rest),
        Some(left) => additive_rest(left, shorter(first.rest, tokens)),
    }
}

/// What follows the left operand of a sum.
pub open spec fn additive_rest(left: ExpressionView, tokens: Seq<TokenView>) -> Parsed<
    ExpressionView,
>
    decreases tokens.len(), 3nat,
{
    if tokens.len() == 0 {
        found(left, tokens)
    } else {
        match additive_operator(tokens[0]) {
            None => found(left, tokens),
            Some(op) => {
                let operand = term(tokens.drop_first());
                match operand.node {
                    None => failed(operand.rest),
                    Some(right) => additive_rest(
                        ExpressionView::BinaryOp(Box::new(left), op, Box::new(right)),
                        shorter(operand.rest, tokens),
                    ),
                }
            },
        }
    }
}

/// A comparison: sums joined by comparison operators.
pub open spec fn comparison(tokens: Seq<TokenView>) -> Parsed<ExpressionView>
    decreases tokens.len(), 6nat,
{
    let first = additive(tokens);
    match first.node {
        None => failed(first.rest),
        Some(left) => comparison_rest(left, shorter(first.rest, tokens)),
    }
}

/// What follows the left operand of a comparison.
pub open spec fn comparison_rest(left: ExpressionView, tokens: Seq<TokenView>) -> Parsed<
    ExpressionView,
>
    decreases tokens.len(), 5nat,
{
    match comparison_operator(tokens) {
        OperatorScan::Absent => found(left, tokens),
        OperatorScan::Broken { rest } => failed(rest),
        OperatorScan::Present { op, rest } => {
            let operand = additive(shorter(rest, tokens));
            match operand.node {
                None => failed(operand.rest),
                Some(right) => comparison_rest(
                    ExpressionView::ComparisonOp(Box::new(left), op, Box::new(right)),
                    shorter(operand.rest, tokens),
                ),
            }
        },
    }
}

/// A logical expression: comparisons joined by `&&` and `||`.
pub open spec fn logical(tokens: Seq<TokenView>) -> Parsed<ExpressionView>
    decreases tokens.len(), 8nat,
{
    let first = comparison(tokens);
    match first.node {
        None => failed(first.rest),
        Some(left) => logical_rest(left, shorter(first.rest, tokens)),
    }
}

/// What follows the left operand of a logical expression.
pub open spec fn logical_rest(left: ExpressionView, tokens: Seq<TokenView>) -> Parsed<
    ExpressionView,
>
    decreases tokens.len(), 7nat,
{
    match logical_operator(tokens) {
        OperatorScan::Absent => found(left, tokens),
        OperatorScan::Broken { rest } => failed(rest),
        OperatorScan::Present { op, rest } => {
            let operand = comparison(shorter(rest, tokens));
            match operand.node {
                None => failed(operand.rest),
                Some(right) => logical_rest(
                    ExpressionView::LogicalOp(Box::new(left), op, Box::new(right)),
                    shorter(operand.rest, tokens),
                ),
            }
        },
    }
}

/// An expression.
pub open spec fn expression(tokens: Seq<TokenView>) -> Parsed<ExpressionView>
    decreases tokens.len(), 9nat,
{
    logical(tokens)
}

/// What is reported where the symbol `c` is needed: nothing if it is there.
pub open spec fn missing(tokens: Seq<TokenView>, c: char) -> Option<Diagnostic> {
    if starts_with_symbol(tokens, c) {
        None
    } else if tokens.len() == 0 {
        Some(Diagnostic::UnexpectedEnd)
    } else {
        Some(Diagnostic::Expected(c))
    }
}

/// A rule for statements that gave up and left `rest`.
pub open spec fn abandoned(rest: Seq<TokenView>, notes: Seq<Diagnostic>) -> ParsedStatement {
    ParsedStatement { node: None, rest, notes }
}

/// The type that a declaration names behind the variable: `:` and a type
/// name. A `:` that no type name follows is taken and names no type.
pub open spec fn type_annotation(tokens: Seq<TokenView>) -> Parsed<Seq<char>> {
    if starts_with_symbol(tokens, ':') {
        let behind = tokens.drop_first();
        if behind.len() > 0 && behind[0] is Type {
            found(behind[0]->Type_0, behind.drop_first())
        } else {
            failed(behind)
        }
    } else {
        failed(tokens)
    }
}

/// A variable declaration, behind its `let` or `const`: a name, the type if
/// one is given, `=` and an expression.
pub open spec fn var_decl(tokens: Seq<TokenView>) -> Parsed<StatementView> {
    if tokens.len() > 0 && tokens[0] is Ident {
        let annotation = type_annotation(tokens.drop_first());
        if starts_with_symbol(annotation.rest, '=') {
            let value = expression(annotation.rest.drop_first());
            match value.node {
                Some(node) => found(
                    StatementView::VarDeclaration {
                        name: tokens[0]->Ident_0,
                        var_type: annotation.node,
                        value: node,
                    },
                    value.rest,
                ),
                None => failed(value.rest),
            }
        } else {
            failed(annotation.rest)
        }
    } else {
        failed(tokens)
    }
}

/// A call that stands as a statement, behind the name of the function.
pub open spec fn function_call(name: Seq<char>, tokens: Seq<TokenView>) -> Parsed<
    StatementView,
> {
    let call = call_arguments(tokens);
    Parsed {
        node: match call.node {
            Some(args) => Some(StatementView::FunctionCall { name, args }),
            None => None,
        },
        rest: call.rest,
    }
}

/// A conditional, behind its `if`: a condition in parentheses, `{`, and
/// what `conditional_body` describes.
pub open spec fn if_statement(tokens: Seq<TokenView>) -> ParsedStatement
    decreases tokens.len(), 3nat,
{
    match missing(tokens, '(') {
        Some(note) => abandoned(tokens, seq![note]),
        None => {
            let condition = expression(tokens.drop_first());
            match condition.node {
                None => abandoned(condition.rest, Seq::empty()),
                Some(test) => match missing(condition.rest, ')') {
                    Some(note) => abandoned(condition.rest, seq![note]),
                    None => match missing(condition.rest.drop_first(), '{') {
                        Some(note) => abandoned(condition.rest.drop_first(), seq![note]),
                        None => conditional_body(
                            test,
                            shorter(condition.rest.drop_first().drop_first(), tokens),
                        ),
                    },
                },
            }
        },
    }
}

/// A conditional, behind the `{` of its first branch: the statements of the
/// branch, `}`, and the other branch if `else` follows.
pub open spec fn conditional_body(test: ExpressionView, tokens: Seq<TokenView>) -> ParsedStatement
    decreases tokens.len(), 2nat,
{
    let body = statements(tokens);
    match missing(body.rest, '}') {
        Some(note) => abandoned(body.rest, body.notes.push(note)),
        None => {
            let behind = body.rest.drop_first();
            if starts_with_keyword(behind, "else"@) {
                let other = else_branch(shorter(behind.drop_first(), tokens));
                ParsedStatement {
                    node: match other.node {
                        Some(node) => Some(
                            StatementView::If {
                                condition: test,
                                then_branch: body.items,
                                else_branch: Some(Box::new(node)),
                            },
                        ),
                        None => None,
                    },
                    rest: other.rest,
                    notes: body.notes + other.notes,
                }
            } else {
                ParsedStatement {
                    node: Some(
                        StatementView::If {
                            condition: test,
                            then_branch: body.items,
                            else_branch: None,
                        },
                    ),
                    rest: behind,
                    notes: body.notes,
                }
            }
        },
    }
}

/// What stands behind `else`: another conditional, or statements in braces,
/// which make a block.
pub open spec fn else_branch(tokens: Seq<TokenView>) -> ParsedStatement
    decreases tokens.len(), 0nat,
{
    if starts_with_keyword(tokens, "if"@) {
        if_statement(tokens.drop_first())
    } else {
        match missing(tokens, '{') {
            Some(note) => abandoned(tokens, seq![note]),
            None => {
                let body = statements(tokens.drop_first());
                match missing(body.rest, '}') {
                    Some(note) => abandoned(body.rest, body.notes.push(note)),
                    None => ParsedStatement {
                        node: Some(StatementView::Block(body.items)),
                        rest: body.rest.drop_first(),
                        notes: body.notes,
                    },
                }
            },
        }
    }
}

/// The statement that the token `first` begins, `tokens` being what follows
/// it: a conditional behind `if`, a declaration behind `let` or `const`, a
/// call behind an identifier. Any other token begins nothing.
pub open spec fn statement(first: TokenView, tokens: Seq<TokenView>) -> ParsedStatement
    decreases tokens.len(), 4nat,
{
    if first == TokenView::Keyword("if"@) {
        if_statement(tokens)
    } else if first == TokenView::Keyword("let"@) || first == TokenView::Keyword("const"@) {
        let declaration = var_decl(tokens);
        ParsedStatement { node: declaration.node, rest: declaration.rest, notes: Seq::empty() }
    } else if first is Ident {
        let call = function_call(first->Ident_0, tokens);
        ParsedStatement { node: call.node, rest: call.rest, notes: Seq::empty() }
    } else {
        abandoned(tokens, Seq::empty())
    }
}

/// Whether a list of statements ends before `tokens`: at the end of the
/// text or at a `}`.
pub open spec fn ends_block(tokens: Seq<TokenView>) -> bool {
    tokens.len() == 0 || tokens[0] == TokenView::Symbol('}')
}

/// The statements up to the end of the tokens or to a `}`, which is not
/// taken. A rule that gives up leaves no statement, and a token that begins
/// no statement is passed over.
pub open spec fn statements(tokens: Seq<TokenView>) -> ParsedBlock
    decreases tokens.len(), 1nat,
{
    if ends_block(tokens) {
        ParsedBlock { items: Seq::empty(), rest: tokens, notes: Seq::empty() }
    } else {
        let first = statement(tokens[0], tokens.drop_first());
        let more = statements(shorter(first.rest, tokens));
        ParsedBlock {
            items: match first.node {
                Some(node) => seq![node] + more.items,
                None => more.items,
            },
            rest: more.rest,
            notes: first.notes + more.notes,
        }
    }
}

/// A factor leaves no more tokens than it was given, and fewer if it
/// succeeds.
pub proof fn lemma_factor_progress(tokens: Seq<TokenView>)
    ensures
        factor(tokens).rest.len() <= tokens.len(),
        factor(tokens).node is Some ==> factor(tokens).rest.len() < tokens.len(),
    decreases tokens.len(), 0nat,
{
    if tokens.len() > 0 {
        if tokens[0] is Ident && starts_with_symbol(tokens.drop_first(), '(') {
            lemma_call_arguments_progress(tokens.drop_first());
        }
        if tokens[0] == TokenView::Symbol('(') {
            lemma_expression_progress(tokens.drop_first());
        }
    }
}

/// The arguments of a call leave no more tokens than they were given, and
/// fewer if they are complete.
pub proof fn lemma_call_arguments_progress(tokens: Seq<TokenView>)
    ensures
        call_arguments(tokens).rest.len() <= tokens.len(),
        call_arguments(tokens).node is Some ==> call_arguments(tokens).rest.len() < tokens.len(),
    decreases tokens.len(), 11nat,
{
    if starts_with_symbol(tokens, '(') {
        lemma_arguments_progress(tokens.drop_first());
    }
}

/// A list of arguments leaves no more tokens than it was given.
pub proof fn lemma_arguments_progress(tokens: Seq<TokenView>)
    ensures
        arguments(tokens).rest.len() <= tokens.len(),
    decreases tokens.len(), 10nat,
{
    let first = expression(tokens);
    lemma_expression_progress(tokens);
    if first.node is Some && tokens.len() > 0 && starts_with_symbol(first.rest, ',') {
        lemma_arguments_progress(first.rest.drop_first());
    }
}

/// A product leaves no more tokens than it was given, and fewer if it succeeds.
pub proof fn lemma_term_progress(tokens: Seq<TokenView>)
    ensures
        term(tokens).rest.len() <= tokens.len(),
        term(tokens).node is Some ==> term(tokens).rest.len() < tokens.len(),
    decreases tokens.len(), 2nat,
{
    let first = factor(tokens);
    lemma_factor_progress(tokens);
    if first.node is Some {
        lemma_term_rest_progress(first.node->0, first.rest);
    }
}

/// What follows the left operand of a product leaves no more tokens than it was given.
pub proof fn lemma_term_rest_progress(left: ExpressionView, tokens: Seq<TokenView>)
    ensures
        term_rest(left, tokens).rest.len() <= tokens.len(),
    decreases tokens.len(), 1nat,
{
    if tokens.len() > 0 && multiplicative_operator(tokens[0]) is Some {
        let op = multiplicative_operator(tokens[0])->0;
        let operand = factor(tokens.drop_first());
        lemma_factor_progress(tokens.drop_first());
        if operand.node is Some {
            lemma_term_rest_progress(
                ExpressionView::BinaryOp(Box::new(left), op, Box::new(operand.node->0)),
                operand.rest,
            );
        }
    }
}

/// A sum leaves no more tokens than it was given, and fewer if it succeeds.
pub proof fn lemma_additive_progress(tokens: Seq<TokenView>)
    ensures
        additive(tokens).rest.len() <= tokens.len(),
        additive(tokens).node is Some ==> additive(tokens).rest.len() < tokens.len(),
    decreases tokens.len(), 4nat,
{
    let first = term(tokens);
    lemma_term_progress(tokens);
    if first.node is Some {
        lemma_additive_rest_progress(first.node->0, first.rest);
    }
}

/// What follows the left operand of a sum leaves no more tokens than it was given.
pub proof fn lemma_additive_rest_progress(left: ExpressionView, tokens: Seq<TokenView>)
    ensures
        additive_rest(left, tokens).rest.len() <= tokens.len(),
    decreases tokens.len(), 3nat,
{
    if tokens.len() > 0 && additive_operator(tokens[0]) is Some {
        let op = additive_operator(tokens[0])->0;
        let operand = term(tokens.drop_first());
        lemma_term_progress(tokens.drop_first());
        if operand.node is Some {
            lemma_additive_rest_progress(
                ExpressionView::BinaryOp(Box::new(left), op, Box::new(operand.node->0)),
                operand.rest,
            );
        }
    }
}

/// A comparison leaves no more tokens than it was given, and fewer if it succeeds.
pub proof fn lemma_comparison_progress(tokens: Seq<TokenView>)
    ensures
        comparison(tokens).rest.len() <= tokens.len(),
        comparison(tokens).node is Some ==> comparison(tokens).rest.len() < tokens.len(),
    decreases tokens.len(), 6nat,
{
    let first = additive(tokens);
    lemma_additive_progress(tokens);
    if first.node is Some {
        lemma_comparison_rest_progress(first.node->0, first.rest);
    }
}

/// What follows the left operand of a comparison leaves no more tokens than it was given.
pub proof fn lemma_comparison_rest_progress(left: ExpressionView, tokens: Seq<TokenView>)
    ensures
        comparison_rest(left, tokens).rest.len() <= tokens.len(),
    decreases tokens.len(), 5nat,
{
    match comparison_operator(tokens) {
        OperatorScan::Present { op, rest } => {
            let operand = additive(rest);
            lemma_additive_progress(rest);
            if operand.node is Some {
                lemma_comparison_rest_progress(
                    ExpressionView::ComparisonOp(Box::new(left), op, Box::new(operand.node->0)),
                    operand.rest,
                );
            }
        },
        _ => {},
    }
}

/// A logical expression leaves no more tokens than it was given, and fewer if it succeeds.
pub proof fn lemma_logical_progress(tokens: Seq<TokenView>)
    ensures
        logical(tokens).rest.len() <= tokens.len(),
        logical(tokens).node is Some ==> logical(tokens).rest.len() < tokens.len(),
    decreases tokens.len(), 8nat,
{
    let first = comparison(tokens);
    lemma_comparison_progress(tokens);
    if first.node is Some {
        lemma_logical_rest_progress(first.node->0, first.rest);
    }
}

/// What follows the left operand of a logical expression leaves no more tokens than it was given.
pub proof fn lemma_logical_rest_progress(left: ExpressionView, tokens: Seq<TokenView>)
    ensures
        logical_rest(left, tokens).rest.len() <= tokens.len(),
    decreases tokens.len(), 7nat,
{
    match logical_operator(tokens) {
        OperatorScan::Present { op, rest } => {
            let operand = comparison(rest);
            lemma_comparison_progress(rest);
            if operand.node is Some {
                lemma_logical_rest_progress(
                    ExpressionView::LogicalOp(Box::new(left), op, Box::new(operand.node->0)),
                    operand.rest,
                );
            }
        },
        _ => {},
    }
}

/// An expression leaves no more tokens than it was given, and fewer if it
/// succeeds.
pub proof fn lemma_expression_progress(tokens: Seq<TokenView>)
    ensures
        expression(tokens).rest.len() <= tokens.len(),
        expression(tokens).node is Some ==> expression(tokens).rest.len() < tokens.len(),
    decreases tokens.len(), 9nat,
{
    lemma_logical_progress(tokens);
}

/// A declaration leaves no more tokens than it was given.
pub proof fn lemma_var_decl_progress(tokens: Seq<TokenView>)
    ensures
        var_decl(tokens).rest.len() <= tokens.len(),
{
    if tokens.len() > 0 {
        let annotation = type_annotation(tokens.drop_first());
        if starts_with_symbol(annotation.rest, '=') {
            lemma_expression_progress(annotation.rest.drop_first());
        }
    }
}

/// A conditional leaves no more tokens than it was given.
pub proof fn lemma_if_statement_progress(tokens: Seq<TokenView>)
    ensures
        if_statement(tokens).rest.len() <= tokens.len(),
    decreases tokens.len(), 3nat,
{
    if missing(tokens, '(') is None {
        let condition = expression(tokens.drop_first());
        lemma_expression_progress(tokens.drop_first());
        if condition.node is Some && missing(condition.rest, ')') is None && missing(
            condition.rest.drop_first(),
            '{',
        ) is None {
            lemma_conditional_body_progress(
                condition.node->0,
                condition.rest.drop_first().drop_first(),
            );
        }
    }
}

/// The branches of a conditional leave no more tokens than they were given.
pub proof fn lemma_conditional_body_progress(test: ExpressionView, tokens: Seq<TokenView>)
    ensures
        conditional_body(test, tokens).rest.len() <= tokens.len(),
    decreases tokens.len(), 2nat,
{
    let body = statements(tokens);
    lemma_statements_progress(tokens);
    if missing(body.rest, '}') is None && starts_with_keyword(body.rest.drop_first(), "else"@) {
        lemma_else_branch_progress(body.rest.drop_first().drop_first());
    }
}

/// What stands behind `else` leaves no more tokens than it was given.
pub proof fn lemma_else_branch_progress(tokens: Seq<TokenView>)
    ensures
        else_branch(tokens).rest.len() <= tokens.len(),
    decreases tokens.len(), 0nat,
{
    if starts_with_keyword(tokens, "if"@) {
        lemma_if_statement_progress(tokens.drop_first());
    } else if missing(tokens, '{') is None {
        lemma_statements_progress(tokens.drop_first());
    }
}

/// A statement leaves no more tokens than it was given.
pub proof fn lemma_statement_progress(first: TokenView, tokens: Seq<TokenView>)
    ensures
        statement(first, tokens).rest.len() <= tokens.len(),
    decreases tokens.len(), 4nat,
{
    if first == TokenView::Keyword("if"@) {
        lemma_if_statement_progress(tokens);
    } else if first == TokenView::Keyword("let"@) || first == TokenView::Keyword("const"@) {
        lemma_var_decl_progress(tokens);
    } else if first is Ident {
        lemma_call_arguments_progress(tokens);
    }
}

/// A list of statements leaves no more tokens than it was given, and ends
/// at the end of the tokens or before a `}`: whatever cannot be read is
/// passed over, and what follows it is read.
pub proof fn lemma_statements_progress(tokens: Seq<TokenView>)
    ensures
        statements(tokens).rest.len() <= tokens.len(),
        ends_block(statements(tokens).rest),
    decreases tokens.len(), 1nat,
{
    if !ends_block(tokens) {
        let first = statement(tokens[0], tokens.drop_first());
        lemma_statement_progress(tokens[0], tokens.drop_first());
        lemma_statements_progress(first.rest);
    }
}

/// A conditional that the grammar gives may stand in a list of statements.
pub proof fn lemma_if_statement_shaped(tokens: Seq<TokenView>)
    ensures
        if_statement(tokens).node matches Some(node) ==> node is If && shaped(node),
    decreases tokens.len(), 3nat,
{
    if missing(tokens, '(') is None {
        let condition = expression(tokens.drop_first());
        if condition.node is Some && missing(condition.rest, ')') is None && missing(
            condition.rest.drop_first(),
            '{',
        ) is None {
            lemma_conditional_body_shaped(
                condition.node->0,
                shorter(condition.rest.drop_first().drop_first(), tokens),
            );
        }
    }
}

/// A conditional that the grammar gives may stand in a list of statements.
pub proof fn lemma_conditional_body_shaped(test: ExpressionView, tokens: Seq<TokenView>)
    ensures
        conditional_body(test, tokens).node matches Some(node) ==> node is If && shaped(node),
    decreases tokens.len(), 2nat,
{
    let body = statements(tokens);
    lemma_statements_shaped(tokens);
    if missing(body.rest, '}') is None && starts_with_keyword(body.rest.drop_first(), "else"@) {
        lemma_else_branch_shaped(shorter(body.rest.drop_first().drop_first(), tokens));
    }
}

/// What the grammar gives behind `else` may stand as the `else` arm of a
/// conditional.
pub proof fn lemma_else_branch_shaped(tokens: Seq<TokenView>)
    ensures
        else_branch(tokens).node matches Some(node) ==> shaped_else(node),
    decreases tokens.len(), 0nat,
{
    if starts_with_keyword(tokens, "if"@) {
        lemma_if_statement_shaped(tokens.drop_first());
    } else if missing(tokens, '{') is None {
        lemma_statements_shaped(tokens.drop_first());
    }
}

/// A statement that the grammar gives may stand in a list of statements.
pub proof fn lemma_statement_shaped(first: TokenView, tokens: Seq<TokenView>)
    ensures
        statement(first, tokens).node matches Some(node) ==> shaped(node),
    decreases tokens.len(), 4nat,
{
    if first == TokenView::Keyword("if"@) {
        lemma_if_statement_shaped(tokens);
    }
}

/// The statements that the grammar gives may all stand where they stand: a
/// block is found only as the `else` arm of a conditional, and such an arm
/// is a block or another conditional.
pub proof fn lemma_statements_shaped(tokens: Seq<TokenView>)
    ensures
        all_shaped(statements(tokens).items),
    decreases tokens.len(), 1nat,
{
    if !ends_block(tokens) {
        let first = statement(tokens[0], tokens.drop_first());
        let more = statements(shorter(first.rest, tokens));
        lemma_statement_shaped(tokens[0], tokens.drop_first());
        lemma_statements_shaped(shorter(first.rest, tokens));
        assert forall|i: int| 0 <= i < statements(tokens).items.len() implies shaped(
            #[trigger] statements(tokens).items[i],
        ) by {
            if first.node is Some && i > 0 {
                assert(statements(tokens).items[i] == more.items[i - 1]);
            }
        }
    }
}

} // verus!
