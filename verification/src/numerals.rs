//! The numeric literals of what the grammar gives are decimal numerals, if
//! those of the tokens are.
use vstd::prelude::*;
use crate::grammar::{
    additive, additive_operator, additive_rest, arguments, call_arguments, comparison,
    comparison_operator, comparison_rest, conditional_body, else_branch, ends_block, expression,
    factor, if_statement, logical, logical_operator, logical_rest, missing,
    multiplicative_operator, shorter, starts_with_keyword, starts_with_symbol, statement,
    statements, term, term_rest, type_annotation, var_decl, OperatorScan,
};
use crate::lexer::all_well_formed;
use crate::statement::{
    all_numerals, all_statement_numerals, numerals, statement_numerals, ExpressionView,
};
use crate::token::TokenView;

verus! {

/// Behind the first of well-formed tokens, the others are well formed.
pub proof fn lemma_drop_first_well_formed(tokens: Seq<TokenView>)
    requires
        all_well_formed(tokens),
        tokens.len() > 0,
    ensures
        all_well_formed(tokens.drop_first()),
        crate::lexer::well_formed(tokens[0]),
{
    assert forall|i: int| 0 <= i < tokens.drop_first().len() implies crate::lexer::well_formed(
        #[trigger] tokens.drop_first()[i],
    ) by {
        assert(tokens.drop_first()[i] == tokens[i + 1]);
    }
}

/// What is left of well-formed tokens is well formed.
pub proof fn lemma_shorter_well_formed(rest: Seq<TokenView>, tokens: Seq<TokenView>)
    requires
        all_well_formed(rest),
    ensures
        all_well_formed(shorter(rest, tokens)),
{
}

/// A factor of well-formed tokens holds numerals only.
pub proof fn lemma_factor_numerals(tokens: Seq<TokenView>)
    requires
        all_well_formed(tokens),
    ensures
        all_well_formed(factor(tokens).rest),
        factor(tokens).node matches Some(node) ==> numerals(node),
    decreases tokens.len(), 0nat,
{
    if tokens.len() > 0 {
        lemma_drop_first_well_formed(tokens);
        if tokens[0] is Ident && starts_with_symbol(tokens.drop_first(), '(') {
            lemma_call_arguments_numerals(tokens.drop_first());
        }
        if tokens[0] == TokenView::Symbol('(') {
            let inner = expression(tokens.drop_first());
            lemma_expression_numerals(tokens.drop_first());
            if starts_with_symbol(inner.rest, ')') {
                lemma_drop_first_well_formed(inner.rest);
            }
        }
    }
}

/// The arguments of a call of well-formed tokens hold numerals only.
pub proof fn lemma_call_arguments_numerals(tokens: Seq<TokenView>)
    requires
        all_well_formed(tokens),
    ensures
        all_well_formed(call_arguments(tokens).rest),
        call_arguments(tokens).node matches Some(args) ==> all_numerals(args),
    decreases tokens.len(), 11nat,
{
    if starts_with_symbol(tokens, '(') {
        let list = arguments(tokens.drop_first());
        lemma_drop_first_well_formed(tokens);
        lemma_arguments_numerals(tokens.drop_first());
        if starts_with_symbol(list.rest, ')') {
            lemma_drop_first_well_formed(list.rest);
        }
    }
}

/// A list of arguments of well-formed tokens holds numerals only.
pub proof fn lemma_arguments_numerals(tokens: Seq<TokenView>)
    requires
        all_well_formed(tokens),
    ensures
        all_well_formed(arguments(tokens).rest),
        all_numerals(arguments(tokens).items),
    decreases tokens.len(), 10nat,
{
    let first = expression(tokens);
    lemma_expression_numerals(tokens);
    if first.node is Some && tokens.len() > 0 && starts_with_symbol(first.rest, ',') {
        let behind = shorter(first.rest.drop_first(), tokens);
        lemma_drop_first_well_formed(first.rest);
        lemma_shorter_well_formed(first.rest.drop_first(), tokens);
        lemma_arguments_numerals(behind);
        let more = arguments(behind);
        assert forall|i: int| 0 <= i < arguments(tokens).items.len() implies numerals(
            #[trigger] arguments(tokens).items[i],
        ) by {
            if i > 0 {
                assert(arguments(tokens).items[i] == more.items[i - 1]);
            }
        }
    }
}

/// A product of well-formed tokens holds numerals only.
pub proof fn lemma_term_numerals(tokens: Seq<TokenView>)
    requires
        all_well_formed(tokens),
    ensures
        all_well_formed(term(tokens).rest),
        term(tokens).node matches Some(node) ==> numerals(node),
    decreases tokens.len(), 2nat,
{
    let first = factor(tokens);
    lemma_factor_numerals(tokens);
    if first.node is Some {
        lemma_shorter_well_formed(first.rest, tokens);
        lemma_term_rest_numerals(first.node->0, shorter(first.rest, tokens));
    }
}

/// What follows a left operand of numerals in a product of well-formed tokens holds numerals only.
pub proof fn lemma_term_rest_numerals(left: ExpressionView, tokens: Seq<TokenView>)
    requires
        all_well_formed(tokens),
        numerals(left),
    ensures
        all_well_formed(term_rest(left, tokens).rest),
        term_rest(left, tokens).node matches Some(node) ==> numerals(node),
    decreases tokens.len(), 1nat,
{
    if tokens.len() > 0 && multiplicative_operator(tokens[0]) is Some {
        let op = multiplicative_operator(tokens[0])->0;
        let operand = factor(tokens.drop_first());
        lemma_drop_first_well_formed(tokens);
        lemma_factor_numerals(tokens.drop_first());
        if operand.node is Some {
            lemma_shorter_well_formed(operand.rest, tokens);
            lemma_term_rest_numerals(
                ExpressionView::BinaryOp(Box::new(left), op, Box::new(operand.node->0)),
                shorter(operand.rest, tokens),
            );
        }
    }
}

/// A sum of well-formed tokens holds numerals only.
pub proof fn lemma_additive_numerals(tokens: Seq<TokenView>)
    requires
        all_well_formed(tokens),
    ensures
        all_well_formed(additive(tokens).rest),
        additive(tokens).node matches Some(node) ==> numerals(node),
    decreases tokens.len(), 4nat,
{
    let first = term(tokens);
    lemma_term_numerals(tokens);
    if first.node is Some {
        lemma_shorter_well_formed(first.rest, tokens);
        lemma_additive_rest_numerals(first.node->0, shorter(first.rest, tokens));
    }
}

/// What follows a left operand of numerals in a sum of well-formed tokens holds numerals only.
pub proof fn lemma_additive_rest_numerals(left: ExpressionView, tokens: Seq<TokenView>)
    requires
        all_well_formed(tokens),
        numerals(left),
    ensures
        all_well_formed(additive_rest(left, tokens).rest),
        additive_rest(left, tokens).node matches Some(node) ==> numerals(node),
    decreases tokens.len(), 3nat,
{
    if tokens.len() > 0 && additive_operator(tokens[0]) is Some {
        let op = additive_operator(tokens[0])->0;
        let operand = term(tokens.drop_first());
        lemma_drop_first_well_formed(tokens);
        lemma_term_numerals(tokens.drop_first());
        if operand.node is Some {
            lemma_shorter_well_formed(operand.rest, tokens);
            lemma_additive_rest_numerals(
                ExpressionView::BinaryOp(Box::new(left), op, Box::new(operand.node->0)),
                shorter(operand.rest, tokens),
            );
        }
    }
}

/// A comparison of well-formed tokens holds numerals only.
pub proof fn lemma_comparison_numerals(tokens: Seq<TokenView>)
    requires
        all_well_formed(tokens),
    ensures
        all_well_formed(comparison(tokens).rest),
        comparison(tokens).node matches Some(node) ==> numerals(node),
    decreases tokens.len(), 6nat,
{
    let first = additive(tokens);
    lemma_additive_numerals(tokens);
    if first.node is Some {
        lemma_shorter_well_formed(first.rest, tokens);
        lemma_comparison_rest_numerals(first.node->0, shorter(first.rest, tokens));
    }
}

/// What follows a left operand of numerals in a comparison of well-formed tokens holds numerals only.
pub proof fn lemma_comparison_rest_numerals(left: ExpressionView, tokens: Seq<TokenView>)
    requires
        all_well_formed(tokens),
        numerals(left),
    ensures
        all_well_formed(comparison_rest(left, tokens).rest),
        comparison_rest(left, tokens).node matches Some(node) ==> numerals(node),
    decreases tokens.len(), 5nat,
{
    if tokens.len() > 0 {
        lemma_drop_first_well_formed(tokens);
        if tokens.len() > 1 {
            lemma_drop_first_well_formed(tokens.drop_first());
        }
    }
    match comparison_operator(tokens) {
        OperatorScan::Present { op, rest } => {
            let operand = additive(shorter(rest, tokens));
            lemma_shorter_well_formed(rest, tokens);
            lemma_additive_numerals(shorter(rest, tokens));
            if operand.node is Some {
                lemma_shorter_well_formed(operand.rest, tokens);
                lemma_comparison_rest_numerals(
                    ExpressionView::ComparisonOp(Box::new(left), op, Box::new(operand.node->0)),
                    shorter(operand.rest, tokens),
                );
            }
        },
        _ => {},
    }
}

/// A logical expression of well-formed tokens holds numerals only.
pub proof fn lemma_logical_numerals(tokens: Seq<TokenView>)
    requires
        all_well_formed(tokens),
    ensures
        all_well_formed(logical(tokens).rest),
        logical(tokens).node matches Some(node) ==> numerals(node),
    decreases tokens.len(), 8nat,
{
    let first = comparison(tokens);
    lemma_comparison_numerals(tokens);
    if first.node is Some {
        lemma_shorter_well_formed(first.rest, tokens);
        lemma_logical_rest_numerals(first.node->0, shorter(first.rest, tokens));
    }
}

/// What follows a left operand of numerals in a logical expression of well-formed tokens holds numerals only.
pub proof fn lemma_logical_rest_numerals(left: ExpressionView, tokens: Seq<TokenView>)
    requires
        all_well_formed(tokens),
        numerals(left),
    ensures
        all_well_formed(logical_rest(left, tokens).rest),
        logical_rest(left, tokens).node matches Some(node) ==> numerals(node),
    decreases tokens.len(), 7nat,
{
    if tokens.len() > 0 {
        lemma_drop_first_well_formed(tokens);
        if tokens.len() > 1 {
            lemma_drop_first_well_formed(tokens.drop_first());
        }
    }
    match logical_operator(tokens) {
        OperatorScan::Present { op, rest } => {
            let operand = comparison(shorter(rest, tokens));
            lemma_shorter_well_formed(rest, tokens);
            lemma_comparison_numerals(shorter(rest, tokens));
            if operand.node is Some {
                lemma_shorter_well_formed(operand.rest, tokens);
                lemma_logical_rest_numerals(
                    ExpressionView::LogicalOp(Box::new(left), op, Box::new(operand.node->0)),
                    shorter(operand.rest, tokens),
                );
            }
        },
        _ => {},
    }
}

/// An expression of well-formed tokens holds numerals only.
pub proof fn lemma_expression_numerals(tokens: Seq<TokenView>)
    requires
        all_well_formed(tokens),
    ensures
        all_well_formed(expression(tokens).rest),
        expression(tokens).node matches Some(node) ==> numerals(node),
    decreases tokens.len(), 9nat,
{
    lemma_logical_numerals(tokens);
}

/// A declaration of well-formed tokens holds numerals only.
pub proof fn lemma_var_decl_numerals(tokens: Seq<TokenView>)
    requires
        all_well_formed(tokens),
    ensures
        all_well_formed(var_decl(tokens).rest),
        var_decl(tokens).node matches Some(node) ==> statement_numerals(node),
{
    if tokens.len() > 0 {
        lemma_drop_first_well_formed(tokens);
        let behind = tokens.drop_first();
        let annotation = type_annotation(behind);
        if starts_with_symbol(behind, ':') {
            lemma_drop_first_well_formed(behind);
            if behind.drop_first().len() > 0 {
                lemma_drop_first_well_formed(behind.drop_first());
            }
        }
        if starts_with_symbol(annotation.rest, '=') {
            lemma_drop_first_well_formed(annotation.rest);
            lemma_expression_numerals(annotation.rest.drop_first());
        }
    }
}

/// A conditional of well-formed tokens holds numerals only.
pub proof fn lemma_if_statement_numerals(tokens: Seq<TokenView>)
    requires
        all_well_formed(tokens),
    ensures
        all_well_formed(if_statement(tokens).rest),
        if_statement(tokens).node matches Some(node) ==> statement_numerals(node),
    decreases tokens.len(), 3nat,
{
    if missing(tokens, '(') is None {
        let condition = expression(tokens.drop_first());
        lemma_drop_first_well_formed(tokens);
        lemma_expression_numerals(tokens.drop_first());
        if condition.node is Some && missing(condition.rest, ')') is None {
            lemma_drop_first_well_formed(condition.rest);
            if missing(condition.rest.drop_first(), '{') is None {
                let inside = condition.rest.drop_first().drop_first();
                lemma_drop_first_well_formed(condition.rest.drop_first());
                lemma_shorter_well_formed(inside, tokens);
                lemma_conditional_body_numerals(condition.node->0, shorter(inside, tokens));
            }
        }
    }
}

/// The branches of a conditional of well-formed tokens hold numerals only.
pub proof fn lemma_conditional_body_numerals(test: ExpressionView, tokens: Seq<TokenView>)
    requires
        all_well_formed(tokens),
        numerals(test),
    ensures
        all_well_formed(conditional_body(test, tokens).rest),
        conditional_body(test, tokens).node matches Some(node) ==> statement_numerals(node),
    decreases tokens.len(), 2nat,
{
    let body = statements(tokens);
    lemma_statements_numerals(tokens);
    if missing(body.rest, '}') is None {
        lemma_drop_first_well_formed(body.rest);
        let behind = body.rest.drop_first();
        if starts_with_keyword(behind, "else"@) {
            lemma_drop_first_well_formed(behind);
            lemma_shorter_well_formed(behind.drop_first(), tokens);
            lemma_else_branch_numerals(shorter(behind.drop_first(), tokens));
        }
    }
}

/// What stands behind `else` in well-formed tokens holds numerals only.
pub proof fn lemma_else_branch_numerals(tokens: Seq<TokenView>)
    requires
        all_well_formed(tokens),
    ensures
        all_well_formed(else_branch(tokens).rest),
        else_branch(tokens).node matches Some(node) ==> statement_numerals(node),
    decreases tokens.len(), 0nat,
{
    if tokens.len() > 0 {
        lemma_drop_first_well_formed(tokens);
        if starts_with_keyword(tokens, "if"@) {
            lemma_if_statement_numerals(tokens.drop_first());
        } else if missing(tokens, '{') is None {
            let body = statements(tokens.drop_first());
            lemma_statements_numerals(tokens.drop_first());
            if missing(body.rest, '}') is None {
                lemma_drop_first_well_formed(body.rest);
            }
        }
    }
}

/// A statement of well-formed tokens holds numerals only.
pub proof fn lemma_statement_numerals(first: TokenView, tokens: Seq<TokenView>)
    requires
        all_well_formed(tokens),
    ensures
        all_well_formed(statement(first, tokens).rest),
        statement(first, tokens).node matches Some(node) ==> statement_numerals(node),
    decreases tokens.len(), 4nat,
{
    if first == TokenView::Keyword("if"@) {
        lemma_if_statement_numerals(tokens);
    } else if first == TokenView::Keyword("let"@) || first == TokenView::Keyword("const"@) {
        lemma_var_decl_numerals(tokens);
    } else if first is Ident {
        lemma_call_arguments_numerals(tokens);
    }
}

/// The statements of well-formed tokens hold numerals only: every numeric
/// literal in the tree stands for a number.
pub proof fn lemma_statements_numerals(tokens: Seq<TokenView>)
    requires
        all_well_formed(tokens),
    ensures
        all_well_formed(statements(tokens).rest),
        all_statement_numerals(statements(tokens).items),
    decreases tokens.len(), 1nat,
{
    if !ends_block(tokens) {
        let first = statement(tokens[0], tokens.drop_first());
        let more = statements(shorter(first.rest, tokens));
        lemma_drop_first_well_formed(tokens);
        lemma_statement_numerals(tokens[0], tokens.drop_first());
        lemma_shorter_well_formed(first.rest, tokens);
        lemma_statements_numerals(shorter(first.rest, tokens));
        assert forall|i: int| 0 <= i < statements(tokens).items.len() implies statement_numerals(
            #[trigger] statements(tokens).items[i],
        ) by {
            if first.node is Some && i > 0 {
                assert(statements(tokens).items[i] == more.items[i - 1]);
            }
        }
    }
}

} // verus!
