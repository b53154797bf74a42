//! The rules for expressions, by precedence climbing.
use vstd::prelude::*;
use crate::grammar::{
    additive, additive_rest, arguments, call_arguments, comparison, comparison_operator,
    comparison_rest, expression, factor, lemma_additive_progress, lemma_comparison_progress,
    lemma_expression_progress, lemma_factor_progress, lemma_term_progress, logical,
    logical_operator, logical_rest, term, term_rest, OperatorScan,
};
use crate::parser::Parser;
use crate::statement::{
    expression_views, lemma_expression_views_push, ComparisonOperator, Expression, ExpressionView,
    LogicalOperator, Operator,
};
use crate::token::{Token, TokenView};

verus! {

/// What the parser finds where an operator of two characters may stand.
#[derive(Debug, PartialEq, Eq, Clone, Copy)]
pub enum Sign<Op> {
    /// No operator.
    Absent,
    /// The operator.
    Present(Op),
    /// The first half of an operator, without the second.
    Broken,
}

/// Whether the parser's result is the node that the grammar gives.
pub open spec fn agrees(result: Option<Expression>, node: Option<ExpressionView>) -> bool {
    match result {
        Some(e) => node == Some(e@),
        None => node is None,
    }
}

/// Whether the parser found what the grammar finds where an operator may
/// stand, and stands where the grammar says.
pub open spec fn scanned<Op>(sign: Sign<Op>, scan: OperatorScan<Op>) -> bool {
    match sign {
        Sign::Absent => scan is Absent,
        Sign::Present(op) => scan is Present && scan->op == op,
        Sign::Broken => scan is Broken,
    }
}

/// The tokens that are left behind what stands where an operator may stand.
pub open spec fn behind_scan<Op>(scan: OperatorScan<Op>, tokens: Seq<TokenView>) -> Seq<
    TokenView,
> {
    match scan {
        OperatorScan::Absent => tokens,
        OperatorScan::Present { rest, .. } => rest,
        OperatorScan::Broken { rest } => rest,
    }
}

impl Parser {
    /// An expression, or `None` where none stands. Tokens taken before a
    /// failure stay taken.
    pub fn parse_expression(&mut self) -> (result: Option<Expression>)
        requires
            old(self).wf(),
        ensures
            final(self).left_with(old(self), expression(old(self).tokens()).rest),
            agrees(result, expression(old(self).tokens()).node),
        decreases old(self).tokens().len(), 9nat,
    {
        self.parse_logical_expression()
    }

    /// Comparisons joined by `&&` and `||`, grouped to the left.
    pub fn parse_logical_expression(&mut self) -> (result: Option<Expression>)
        requires
            old(self).wf(),
        ensures
            final(self).left_with(old(self), logical(old(self).tokens()).rest),
            agrees(result, logical(old(self).tokens()).node),
        decreases old(self).tokens().len(), 8nat,
    {
        let ghost start = self.tokens();
        proof {
            lemma_comparison_progress(start);
        }
        let mut left = match self.parse_comparison_expression() {
            Some(e) => e,
            None => {
                return None;
            },
        };
        loop
            invariant
                start == old(self).tokens(),
                self.wf(),
                self.notes() == old(self).notes(),
                self.tokens().len() < start.len(),
                logical(start) == logical_rest(left@, self.tokens()),
            ensures
                self.left_with(old(self), logical(start).rest),
                logical(start).node == Some(left@),
            decreases self.tokens().len(),
        {
            let ghost here = self.tokens();
            let ghost behind = behind_scan(logical_operator(here), here);
            proof {
                lemma_comparison_progress(behind);
            }
            let op = match self.parse_logical_operator() {
                Sign::Absent => {
                    break ;
                },
                Sign::Broken => {
                    return None;
                },
                Sign::Present(op) => op,
            };
            let right = match self.parse_comparison_expression() {
                Some(e) => e,
                None => {
                    return None;
                },
            };
            left = Expression::LogicalOp(Box::new(left), op, Box::new(right));
        }
        Some(left)
    }

    /// The logical operator that the parser holds, if it holds one: `&&` or
    /// `||`. The first half without the second is taken and is no operator.
    pub fn parse_logical_operator(&mut self) -> (sign: Sign<LogicalOperator>)
        requires
            old(self).wf(),
        ensures
            final(self).left_with(
                old(self),
                behind_scan(logical_operator(old(self).tokens()), old(self).tokens()),
            ),
            scanned(sign, logical_operator(old(self).tokens())),
    {
        if self.at_symbol('&') {
            self.advance();
            if self.at_symbol('&') {
                self.advance();
                Sign::Present(LogicalOperator::And)
            } else {
                Sign::Broken
            }
        } else if self.at_symbol('|') {
            self.advance();
            if self.at_symbol('|') {
                self.advance();
                Sign::Present(LogicalOperator::Or)
            } else {
                Sign::Broken
            }
        } else {
            Sign::Absent
        }
    }

    /// Sums joined by comparison operators, grouped to the left.
    pub fn parse_comparison_expression(&mut self) -> (result: Option<Expression>)
        requires
            old(self).wf(),
        ensures
            final(self).left_with(old(self), comparison(old(self).tokens()).rest),
            agrees(result, comparison(old(self).tokens()).node),
        decreases old(self).tokens().len(), 6nat,
    {
        let ghost start = self.tokens();
        proof {
            lemma_additive_progress(start);
        }
        let mut left = match self.parse_additive_expression() {
            Some(e) => e,
            None => {
                return None;
            },
        };
        loop
            invariant
                start == old(self).tokens(),
                self.wf(),
                self.notes() == old(self).notes(),
                self.tokens().len() < start.len(),
                comparison(start) == comparison_rest(left@, self.tokens()),
            ensures
                self.left_with(old(self), comparison(start).rest),
                comparison(start).node == Some(left@),
            decreases self.tokens().len(),
        {
            let ghost here = self.tokens();
            let ghost behind = behind_scan(comparison_operator(here), here);
            proof {
                lemma_additive_progress(behind);
            }
            let op = match self.parse_comparison_operator() {
                Sign::Absent => {
                    break ;
                },
                Sign::Broken => {
                    return None;
                },
                Sign::Present(op) => op,
            };
            let right = match self.parse_additive_expression() {
                Some(e) => e,
                None => {
                    return None;
                },
            };
            left = Expression::ComparisonOp(Box::new(left), op, Box::new(right));
        }
        Some(left)
    }

    /// The comparison operator that the parser holds, if it holds one. A
    /// `=` or a `!` without a `=` behind it is taken and is no operator.
    pub fn parse_comparison_operator(&mut self) -> (sign: Sign<ComparisonOperator>)
        requires
            old(self).wf(),
        ensures
            final(self).left_with(
                old(self),
                behind_scan(comparison_operator(old(self).tokens()), old(self).tokens()),
            ),
            scanned(sign, comparison_operator(old(self).tokens())),
    {
        if self.at_symbol('=') {
            self.advance();
            if self.at_symbol('=') {
                self.advance();
                Sign::Present(ComparisonOperator::Equal)
            } else {
                Sign::Broken
            }
        } else if self.at_symbol('!') {
            self.advance();
            if self.at_symbol('=') {
                self.advance();
                Sign::Present(ComparisonOperator::NotEqual)
            } else {
                Sign::Broken
            }
        } else if self.at_symbol('<') {
            self.advance();
            if self.at_symbol('=') {
                self.advance();
                Sign::Present(ComparisonOperator::LessThanOrEqual)
            } else {
                Sign::Present(ComparisonOperator::LessThan)
            }
        } else if self.at_symbol('>') {
            self.advance();
            if self.at_symbol('=') {
                self.advance();
                Sign::Present(ComparisonOperator::GreaterThanOrEqual)
            } else {
                Sign::Present(ComparisonOperator::GreaterThan)
            }
        } else {
            Sign::Absent
        }
    }

    /// Products joined by `+` and `-`, grouped to the left.
    pub fn parse_additive_expression(&mut self) -> (result: Option<Expression>)
        requires
            old(self).wf(),
        ensures
            final(self).left_with(old(self), additive(old(self).tokens()).rest),
            agrees(result, additive(old(self).tokens()).node),
        decreases old(self).tokens().len(), 4nat,
    {
        let ghost start = self.tokens();
        proof {
            lemma_term_progress(start);
        }
        let mut left = match self.parse_term() {
            Some(e) => e,
            None => {
                return None;
            },
        };
        while self.at_symbol('+') || self.at_symbol('-')
            invariant
                start == old(self).tokens(),
                self.wf(),
                self.notes() == old(self).notes(),
                self.tokens().len() < start.len(),
                additive(start) == additive_rest(left@, self.tokens()),
            decreases self.tokens().len(),
        {
            let ghost here = self.tokens();
            proof {
                lemma_term_progress(here.drop_first());
            }
            let op = if self.at_symbol('+') {
                Operator::Add
            } else {
                Operator::Sub
            };
            self.advance();
            let right = match self.parse_term() {
                Some(e) => e,
                None => {
                    return None;
                },
            };
            left = Expression::BinaryOp(Box::new(left), op, Box::new(right));
        }
        Some(left)
    }

    /// Factors joined by `*` and `/`, grouped to the left.
    pub fn parse_term(&mut self) -> (result: Option<Expression>)
        requires
            old(self).wf(),
        ensures
            final(self).left_with(old(self), term(old(self).tokens()).rest),
            agrees(result, term(old(self).tokens()).node),
        decreases old(self).tokens().len(), 2nat,
    {
        let ghost start = self.tokens();
        proof {
            lemma_factor_progress(start);
        }
        let mut left = match self.parse_factor() {
            Some(e) => e,
            None => {
                return None;
            },
        };
        while self.at_symbol('*') || self.at_symbol('/')
            invariant
                start == old(self).tokens(),
                self.wf(),
                self.notes() == old(self).notes(),
                self.tokens().len() < start.len(),
                term(start) == term_rest(left@, self.tokens()),
            decreases self.tokens().len(),
        {
            let ghost here = self.tokens();
            proof {
                lemma_factor_progress(here.drop_first());
            }
            let op = if self.at_symbol('*') {
                Operator::Mul
            } else {
                Operator::Div
            };
            self.advance();
            let right = match self.parse_factor() {
                Some(e) => e,
                None => {
                    return None;
                },
            };
            left = Expression::BinaryOp(Box::new(left), op, Box::new(right));
        }
        Some(left)
    }

    /// A literal, an identifier, a call, or an expression in parentheses. A
    /// `)` that is missing is not asked for.
    pub fn parse_factor(&mut self) -> (result: Option<Expression>)
        requires
            old(self).wf(),
        ensures
            final(self).left_with(old(self), factor(old(self).tokens()).rest),
            agrees(result, factor(old(self).tokens()).node),
        decreases old(self).tokens().len(), 0nat,
    {
        match self.peek() {
            Some(Token::Ident(name)) => {
                let name = name.clone();
                self.advance();
                if self.at_symbol('(') {
                    match self.parse_call_arguments() {
                        Some(args) => Some(Expression::FunctionCall { name, args }),
                        None => None,
                    }
                } else {
                    Some(Expression::Identifier(name))
                }
            },
            Some(Token::Number(text)) => {
                let text = text.clone();
                self.advance();
                Some(Expression::Number(text))
            },
            Some(Token::StringLiteral(text)) => {
                let text = text.clone();
                self.advance();
                Some(Expression::StringLiteral(text))
            },
            Some(Token::Symbol(c)) => {
                if *c == '(' {
                    self.advance();
                    let inner = self.parse_expression();
                    if self.at_symbol(')') {
                        self.advance();
                    }
                    inner
                } else {
                    None
                }
            },
            _ => None,
        }
    }

    /// The arguments of a call, from `(` to `)`: expressions separated by
    /// commas. `None` where the parser holds no `(`, where a comma is the
    /// last thing in the list, or where no `)` ends the list.
    pub fn parse_call_arguments(&mut self) -> (result: Option<Vec<Expression>>)
        requires
            old(self).wf(),
        ensures
            final(self).left_with(old(self), call_arguments(old(self).tokens()).rest),
            match result {
                Some(args) => call_arguments(old(self).tokens()).node == Some(
                    expression_views(args@),
                ),
                None => call_arguments(old(self).tokens()).node is None,
            },
        decreases old(self).tokens().len(), 11nat,
    {
        if !self.at_symbol('(') {
            return None;
        }
        self.advance();
        let ghost start = self.tokens();
        let mut args: Vec<Expression> = Vec::new();
        let mut complete = true;
        proof {
            assert(expression_views(args@) + arguments(start).items == arguments(start).items);
        }
        loop
            invariant_except_break
                arguments(start).items == expression_views(args@) + arguments(
                    self.tokens(),
                ).items,
                arguments(start).rest == arguments(self.tokens()).rest,
                arguments(start).complete == (arguments(self.tokens()).complete && (complete
                    || arguments(self.tokens()).items.len() > 0)),
            invariant
                start == old(self).tokens().drop_first(),
                old(self).tokens().len() > 0,
                self.wf(),
                self.notes() == old(self).notes(),
                self.tokens().len() <= start.len(),
            ensures
                self.tokens() == arguments(start).rest,
                arguments(start).items == expression_views(args@),
                arguments(start).complete == complete,
            decreases self.tokens().len(),
        {
            let ghost here = self.tokens();
            let ghost items = expression_views(args@);
            proof {
                lemma_expression_progress(here);
            }
            match self.parse_expression() {
                Some(e) => {
                    proof {
                        lemma_expression_views_push(args@, e);
                    }
                    args.push(e);
                    if self.at_symbol(',') {
                        self.advance();
                        complete = false;
                        proof {
                            let more = arguments(self.tokens()).items;
                            assert(items + (seq![e@] + more) == items.push(e@) + more);
                        }
                    } else {
                        complete = true;
                        proof {
                            assert(items + seq![e@] == items.push(e@));
                        }
                        break ;
                    }
                },
                None => {
                    proof {
                        assert(items + Seq::<ExpressionView>::empty() == items);
                    }
                    break ;
                },
            }
        }
        if complete && self.at_symbol(')') {
            self.advance();
            Some(args)
        } else {
            None
        }
    }
}

} // verus!
