//! The parser: its state, and the rules for statements.
use vstd::prelude::*;
use crate::diagnostic::Diagnostic;
use crate::grammar::{
    conditional_body, else_branch, ends_block, function_call, if_statement,
    lemma_expression_progress, lemma_statement_progress, lemma_statements_progress,
    lemma_statements_shaped, missing, starts_with_keyword, starts_with_symbol, statement,
    statements, var_decl,
};
use crate::numerals::lemma_statements_numerals;
use crate::lexer::{
    all_well_formed, lemma_tokens_from_step, token_views, tokenize, tokens_from, Lexer,
};
use crate::statement::{
    all_shaped, all_statement_numerals, lemma_statement_views_push, statement_views, Expression,
    Statement, StatementView,
};
use crate::token::{Token, TokenView};

verus! {

/// Where a parser has its tokens from: a tokenizer, or a list that was made
/// before.
enum Source {
    Text(Lexer),
    /// The tokens that are still to come, the next one last.
    List(Vec<Token>),
}

impl Source {
    /// Whether the source can hand out all its tokens: a tokenizer has no
    /// malformed numeric literal ahead.
    spec fn wf(&self) -> bool {
        match self {
            Source::Text(lexer) => lexer.within_text() && all_well_formed(lexer.remaining()),
            Source::List(_) => true,
        }
    }

    /// The tokens that are still to come, in order.
    spec fn remaining(&self) -> Seq<TokenView> {
        match self {
            Source::Text(lexer) => lexer.remaining(),
            Source::List(list) => token_views(list@).reverse(),
        }
    }

    /// The next token, if one is left.
    fn next(&mut self) -> (token: Option<Token>)
        requires
            old(self).wf(),
        ensures
            final(self).wf(),
            match token {
                Some(t) => old(self).remaining() == seq![t@] + final(self).remaining(),
                None => old(self).remaining().len() == 0 && final(self).remaining().len() == 0,
            },
    {
        match self {
            Source::Text(lexer) => {
                proof {
                    lemma_tokens_from_step(lexer.text(), lexer.position());
                }
                let token = lexer.next_token();
                proof {
                    use_type_invariant(&*lexer);
                    lemma_tokens_from_step(lexer.text(), lexer.position());
                }
                token
            },
            Source::List(list) => {
                let ghost before = list@;
                let token = list.pop();
                proof {
                    if token is Some {
                        assert(token_views(before).reverse() == seq![token->0@] + token_views(
                            list@,
                        ).reverse());
                    }
                }
                token
            },
        }
    }
}

/// A parser over the tokens of a text. It holds one token at a time and
/// asks for the next when that one is taken.
pub struct Parser {
    source: Source,
    curr: Option<Token>,
    diagnostics: Vec<Diagnostic>,
}

/// Whether the parser's result is the statement that the grammar gives.
pub open spec fn agrees_statement(result: Option<Statement>, node: Option<StatementView>) -> bool {
    match result {
        Some(statement) => node == Some(statement@),
        None => node is None,
    }
}

/// The tokens behind the first, if there is a first.
pub open spec fn behind(tokens: Seq<TokenView>) -> Seq<TokenView> {
    if tokens.len() > 0 {
        tokens.drop_first()
    } else {
        tokens
    }
}

impl Parser {
    /// Well-formedness: no malformed numeric literal lies ahead in the text,
    /// and the parser holds no token only when none is left.
    pub closed spec fn wf(&self) -> bool {
        &&& self.source.wf()
        &&& self.curr is None ==> self.source.remaining().len() == 0
    }

    /// The tokens that the parser has not taken yet, the one it holds first.
    pub closed spec fn tokens(&self) -> Seq<TokenView> {
        match self.curr {
            Some(token) => seq![token@] + self.source.remaining(),
            None => Seq::empty(),
        }
    }

    /// The diagnostics reported so far, oldest first.
    pub closed spec fn notes(&self) -> Seq<Diagnostic> {
        self.diagnostics@
    }

    /// Whether `self` is `before` with tokens taken so that `rest` is left,
    /// and nothing reported.
    pub open spec fn left_with(&self, before: &Parser, rest: Seq<TokenView>) -> bool {
        &&& self.wf()
        &&& self.tokens() == rest
        &&& self.notes() == before.notes()
    }

    /// Whether `self` is `before` with tokens taken so that `rest` is left,
    /// and `notes` reported.
    pub open spec fn left_with_notes(
        &self,
        before: &Parser,
        rest: Seq<TokenView>,
        notes: Seq<Diagnostic>,
    ) -> bool {
        &&& self.wf()
        &&& self.tokens() == rest
        &&& self.notes() == before.notes() + notes
    }

    /// A parser that holds the first token of what `lexer` has left.
    pub fn new(lexer: Lexer) -> (parser: Parser)
        requires
            all_well_formed(lexer.remaining()),
        ensures
            parser.wf(),
            parser.tokens() == lexer.remaining(),
            parser.notes() == Seq::<Diagnostic>::empty(),
    {
        proof {
            use_type_invariant(&lexer);
        }
        let mut source = Source::Text(lexer);
        let curr = source.next();
        Parser { source, curr, diagnostics: Vec::new() }
    }

    /// A parser over tokens that were made before. It holds the first of
    /// them.
    pub fn from_tokens(tokens: Vec<Token>) -> (parser: Parser)
        ensures
            parser.wf(),
            parser.tokens() == token_views(tokens@),
            parser.notes() == Seq::<Diagnostic>::empty(),
    {
        let mut tokens = tokens;
        let ghost all = token_views(tokens@);
        let mut list: Vec<Token> = Vec::new();
        proof {
            assert(token_views(tokens@) + token_views(list@).reverse() == all);
        }
        loop
            invariant
                token_views(tokens@) + token_views(list@).reverse() == all,
            ensures
                token_views(list@).reverse() == all,
            decreases tokens.len(),
        {
            let ghost left = tokens@;
            let ghost turned = list@;
            match tokens.pop() {
                Some(token) => {
                    list.push(token);
                    proof {
                        assert(token_views(left) == token_views(tokens@).push(token@));
                        assert(token_views(list@).reverse() == seq![token@] + token_views(
                            turned,
                        ).reverse());
                        assert(token_views(tokens@).push(token@) + token_views(turned).reverse()
                            == token_views(tokens@) + (seq![token@] + token_views(
                            turned,
                        ).reverse()));
                    }
                },
                None => {
                    proof {
                        assert(token_views(tokens@) + token_views(list@).reverse()
                            == token_views(list@).reverse());
                    }
                    break ;
                },
            }
        }
        let mut source = Source::List(list);
        let curr = source.next();
        Parser { source, curr, diagnostics: Vec::new() }
    }

    /// Takes the token that the parser holds.
    pub fn advance(&mut self)
        requires
            old(self).wf(),
        ensures
            final(self).left_with(old(self), behind(old(self).tokens())),
    {
        let next = self.source.next();
        self.curr = next;
        assert(self.tokens() =~= behind(old(self).tokens()));
    }

    /// The token that the parser holds, if any is left.
    pub fn peek(&self) -> (token: Option<&Token>)
        ensures
            match token {
                Some(t) => self.tokens().len() > 0 && self.tokens()[0] == t@,
                None => self.tokens().len() == 0,
            },
    {
        self.curr.as_ref()
    }

    /// Whether the parser holds the symbol `c`.
    pub fn at_symbol(&self, c: char) -> (r: bool)
        ensures
            r == starts_with_symbol(self.tokens(), c),
    {
        match &self.curr {
            Some(Token::Symbol(s)) => *s == c,
            _ => false,
        }
    }

    /// Whether the parser holds the keyword `word`.
    pub fn at_keyword(&self, word: &str) -> (r: bool)
        ensures
            r == starts_with_keyword(self.tokens(), word@),
    {
        match &self.curr {
            Some(Token::Keyword(k)) => {
                let other = word.to_owned();
                *k == other
            },
            _ => false,
        }
    }

    /// Whether no token is left.
    pub fn at_end(&self) -> (r: bool)
        ensures
            r == (self.tokens().len() == 0),
    {
        self.curr.is_none()
    }

    /// The name that the parser holds, if it holds an identifier.
    pub fn identifier(&self) -> (name: Option<String>)
        ensures
            match name {
                Some(n) => self.tokens().len() > 0 && self.tokens()[0] == TokenView::Ident(n@),
                None => !(self.tokens().len() > 0 && self.tokens()[0] is Ident),
            },
    {
        match &self.curr {
            Some(Token::Ident(name)) => Some(name.clone()),
            _ => None,
        }
    }

    /// The name that the parser holds, if it holds the name of a type.
    pub fn named_type(&self) -> (name: Option<String>)
        ensures
            match name {
                Some(n) => self.tokens().len() > 0 && self.tokens()[0] == TokenView::Type(n@),
                None => !(self.tokens().len() > 0 && self.tokens()[0] is Type),
            },
    {
        match &self.curr {
            Some(Token::Type(name)) => Some(name.clone()),
            _ => None,
        }
    }

    /// Takes the symbol `symbol` if the parser holds it. If not, reports what
    /// is missing and takes nothing.
    pub fn expect(&mut self, symbol: char) -> (there: bool)
        requires
            old(self).wf(),
        ensures
            final(self).wf(),
            there == (missing(old(self).tokens(), symbol) is None),
            there ==> final(self).left_with(old(self), old(self).tokens().drop_first()),
            !there ==> final(self).tokens() == old(self).tokens() && final(self).notes() == old(
                self,
            ).notes().push(missing(old(self).tokens(), symbol)->0),
    {
        if self.at_symbol(symbol) {
            self.advance();
            true
        } else if self.at_end() {
            self.diagnostics.push(Diagnostic::UnexpectedEnd);
            false
        } else {
            self.diagnostics.push(Diagnostic::Expected(symbol));
            false
        }
    }

    /// The statements up to the end of the text or to a `}`, which is left
    /// for the caller. What begins no statement is passed over, and a
    /// statement that cannot be completed is left out.
    pub fn parse(&mut self) -> (list: Vec<Statement>)
        requires
            old(self).wf(),
        ensures
            final(self).left_with_notes(
                old(self),
                statements(old(self).tokens()).rest,
                statements(old(self).tokens()).notes,
            ),
            statement_views(list@) == statements(old(self).tokens()).items,
            ends_block(final(self).tokens()),
        decreases old(self).tokens().len(), 5nat,
    {
        let ghost start = self.tokens();
        let mut list: Vec<Statement> = Vec::new();
        let ghost mut notes: Seq<Diagnostic> = Seq::empty();
        proof {
            assert(self.notes() + notes == self.notes());
            assert(statement_views(list@) + statements(start).items == statements(start).items);
            assert(notes + statements(start).notes == statements(start).notes);
        }
        loop
            invariant
                start == old(self).tokens(),
                self.wf(),
                self.tokens().len() <= start.len(),
                self.notes() == old(self).notes() + notes,
                statements(start).items == statement_views(list@) + statements(
                    self.tokens(),
                ).items,
                statements(start).rest == statements(self.tokens()).rest,
                statements(start).notes == notes + statements(self.tokens()).notes,
            ensures
                ends_block(self.tokens()),
            decreases self.tokens().len(),
        {
            if self.at_end() || self.at_symbol('}') {
                break ;
            }
            let ghost here = self.tokens();
            let ghost first = statement(here[0], here.drop_first());
            let ghost more = statements(first.rest);
            let ghost items = statement_views(list@);
            proof {
                lemma_statement_progress(here[0], here.drop_first());
                assert(old(self).notes() + notes + first.notes == old(self).notes() + (notes
                    + first.notes));
                assert(notes + (first.notes + more.notes) == notes + first.notes + more.notes);
            }
            match self.parse_statement() {
                Some(statement) => {
                    proof {
                        lemma_statement_views_push(list@, statement);
                        assert(items + (seq![statement@] + more.items) == items.push(statement@)
                            + more.items);
                    }
                    list.push(statement);
                },
                None => {},
            }
            proof {
                notes = notes + first.notes;
            }
        }
        proof {
            assert(statement_views(list@) + Seq::<StatementView>::empty() == statement_views(
                list@,
            ));
            assert(notes + Seq::<Diagnostic>::empty() == notes);
        }
        list
    }

    /// The statement that begins with the token that the parser holds, or
    /// `None` where that token begins none or the statement cannot be
    /// completed. The token is taken either way.
    pub fn parse_statement(&mut self) -> (result: Option<Statement>)
        requires
            old(self).wf(),
            old(self).tokens().len() > 0,
        ensures
            final(self).left_with_notes(
                old(self),
                statement(old(self).tokens()[0], old(self).tokens().drop_first()).rest,
                statement(old(self).tokens()[0], old(self).tokens().drop_first()).notes,
            ),
            agrees_statement(
                result,
                statement(old(self).tokens()[0], old(self).tokens().drop_first()).node,
            ),
        decreases old(self).tokens().len(), 4nat,
    {
        proof {
            assert(self.notes() + Seq::<Diagnostic>::empty() == self.notes());
        }
        if self.at_keyword("if") {
            self.parse_if_statement()
        } else if self.at_keyword("let") || self.at_keyword("const") {
            self.advance();
            self.parse_var_decl()
        } else {
            match self.identifier() {
                Some(name) => {
                    self.advance();
                    self.parse_function_call(name)
                },
                None => {
                    self.advance();
                    None
                },
            }
        }
    }

    /// The statements of a branch, with the parser behind its `{`: all up to
    /// the `}` that closes it, or to the end of the text. One call of
    /// `parse` reads them all.
    pub fn parse_block(&mut self) -> (list: Vec<Statement>)
        requires
            old(self).wf(),
        ensures
            final(self).left_with_notes(
                old(self),
                statements(old(self).tokens()).rest,
                statements(old(self).tokens()).notes,
            ),
            statement_views(list@) == statements(old(self).tokens()).items,
            ends_block(final(self).tokens()),
        decreases old(self).tokens().len(), 6nat,
    {
        let ghost start = self.tokens();
        let mut list: Vec<Statement> = Vec::new();
        proof {
            assert(self.notes() + Seq::<Diagnostic>::empty() == self.notes());
        }
        let ghost mut done = false;
        while !self.at_end() && !self.at_symbol('}')
            invariant
                start == old(self).tokens(),
                self.wf(),
                done ==> ends_block(self.tokens()),
                if done {
                    &&& self.tokens() == statements(start).rest
                    &&& self.notes() == old(self).notes() + statements(start).notes
                    &&& statement_views(list@) == statements(start).items
                } else {
                    &&& self.tokens() == start
                    &&& self.notes() == old(self).notes()
                    &&& list@.len() == 0
                },
            decreases (if done { 0nat } else { 1nat }),
        {
            let mut more = self.parse();
            let ghost parsed = more@;
            list.append(&mut more);
            proof {
                assert(list@ == parsed);
                done = true;
            }
        }
        proof {
            if !done {
                assert(list@ == Seq::<Statement>::empty());
            }
        }
        list
    }

    /// A conditional, with the parser at its `if`. A symbol that is missing
    /// is reported, and the conditional given up where the parser stands.
    pub fn parse_if_statement(&mut self) -> (result: Option<Statement>)
        requires
            old(self).wf(),
            old(self).tokens().len() > 0,
        ensures
            final(self).left_with_notes(
                old(self),
                if_statement(old(self).tokens().drop_first()).rest,
                if_statement(old(self).tokens().drop_first()).notes,
            ),
            agrees_statement(result, if_statement(old(self).tokens().drop_first()).node),
        decreases old(self).tokens().len(), 3nat,
    {
        let ghost start = self.tokens().drop_first();
        self.advance();
        if !self.expect('(') {
            assert(self.notes() == old(self).notes() + if_statement(start).notes);
            return None;
        }
        proof {
            lemma_expression_progress(start.drop_first());
        }
        let condition = match self.parse_expression() {
            Some(e) => e,
            None => {
                assert(self.notes() == old(self).notes() + if_statement(start).notes);
                return None;
            },
        };
        if !self.expect(')') {
            assert(self.notes() == old(self).notes() + if_statement(start).notes);
            return None;
        }
        if !self.expect('{') {
            assert(self.notes() == old(self).notes() + if_statement(start).notes);
            return None;
        }
        self.parse_conditional_body(condition)
    }

    /// The rest of a conditional, with the parser behind the `{` of the
    /// first branch.
    fn parse_conditional_body(&mut self, condition: Expression) -> (result: Option<Statement>)
        requires
            old(self).wf(),
        ensures
            final(self).left_with_notes(
                old(self),
                conditional_body(condition@, old(self).tokens()).rest,
                conditional_body(condition@, old(self).tokens()).notes,
            ),
            agrees_statement(result, conditional_body(condition@, old(self).tokens()).node),
        decreases old(self).tokens().len(), 7nat,
    {
        let ghost start = self.tokens();
        let ghost body = statements(start);
        proof {
            lemma_statements_progress(start);
        }
        let then_branch = self.parse_block();
        if !self.expect('}') {
            return None;
        }
        if self.at_keyword("else") {
            self.advance();
            let ghost other = else_branch(self.tokens());
            let after = self.parse_else_branch();
            assert(self.notes() == old(self).notes() + (body.notes + other.notes));
            match after {
                Some(other) => Some(
                    Statement::If { condition, then_branch, else_branch: Some(Box::new(other)) },
                ),
                None => None,
            }
        } else {
            Some(Statement::If { condition, then_branch, else_branch: None })
        }
    }

    /// What stands behind `else`: another conditional, or a block.
    fn parse_else_branch(&mut self) -> (result: Option<Statement>)
        requires
            old(self).wf(),
        ensures
            final(self).left_with_notes(
                old(self),
                else_branch(old(self).tokens()).rest,
                else_branch(old(self).tokens()).notes,
            ),
            agrees_statement(result, else_branch(old(self).tokens()).node),
        decreases old(self).tokens().len(), 8nat,
    {
        let ghost start = self.tokens();
        if self.at_keyword("if") {
            return self.parse_if_statement();
        }
        if !self.expect('{') {
            assert(self.notes() == old(self).notes() + else_branch(start).notes);
            return None;
        }
        let list = self.parse_block();
        if !self.expect('}') {
            return None;
        }
        Some(Statement::Block(list))
    }

    /// A variable declaration, with the parser behind `let` or `const`.
    pub fn parse_var_decl(&mut self) -> (result: Option<Statement>)
        requires
            old(self).wf(),
        ensures
            final(self).left_with(old(self), var_decl(old(self).tokens()).rest),
            agrees_statement(result, var_decl(old(self).tokens()).node),
    {
        let name = match self.identifier() {
            Some(name) => name,
            None => {
                return None;
            },
        };
        self.advance();
        let var_type = if self.at_symbol(':') {
            self.advance();
            match self.named_type() {
                Some(named) => {
                    self.advance();
                    Some(named)
                },
                None => None,
            }
        } else {
            None
        };
        if self.at_symbol('=') {
            self.advance();
            match self.parse_expression() {
                Some(value) => Some(Statement::VarDeclaration { name, var_type, value }),
                None => None,
            }
        } else {
            None
        }
    }

    /// A call that stands as a statement, with the parser behind the name
    /// of the function.
    pub fn parse_function_call(&mut self, name: String) -> (result: Option<Statement>)
        requires
            old(self).wf(),
        ensures
            final(self).left_with(old(self), function_call(name@, old(self).tokens()).rest),
            agrees_statement(result, function_call(name@, old(self).tokens()).node),
    {
        match self.parse_call_arguments() {
            Some(args) => Some(Statement::FunctionCall { name, args }),
            None => None,
        }
    }

    /// Gives up the parser for the diagnostics it reported, oldest first.
    pub fn into_diagnostics(self) -> (notes: Vec<Diagnostic>)
        ensures
            notes@ == self.notes(),
    {
        self.diagnostics
    }

    /// The diagnostics reported so far, oldest first.
    pub fn diagnostics(&self) -> (notes: &Vec<Diagnostic>)
        ensures
            notes@ == self.notes(),
    {
        &self.diagnostics
    }
}

/// Parses a whole text: its statements, up to the end or to a `}` that
/// closes nothing, and the diagnostics reported on the way. `None` if a
/// numeric literal of the text is no decimal numeral, such as `1.2.3`.
///
/// In the statements every numeric literal is a decimal numeral, a block
/// stands only as the `else` arm of a conditional, and such an arm is a
/// block or another conditional.
pub fn parse_source(input: &str) -> (result: Option<(Vec<Statement>, Vec<Diagnostic>)>)
    ensures
        match result {
            Some((list, notes)) => {
                &&& all_well_formed(tokens_from(input@, 0))
                &&& statement_views(list@) == statements(tokens_from(input@, 0)).items
                &&& notes@ == statements(tokens_from(input@, 0)).notes
                &&& all_shaped(statement_views(list@))
                &&& all_statement_numerals(statement_views(list@))
            },
            None => !all_well_formed(tokens_from(input@, 0)),
        },
{
    if tokenize(input).is_none() {
        return None;
    }
    let lexer = Lexer::new(input);
    let mut parser = Parser::new(lexer);
    let list = parser.parse();
    let notes = parser.into_diagnostics();
    proof {
        assert(Seq::<Diagnostic>::empty() + statements(tokens_from(input@, 0)).notes
            == statements(tokens_from(input@, 0)).notes);
        lemma_statements_shaped(tokens_from(input@, 0));
        lemma_statements_numerals(tokens_from(input@, 0));
    }
    Some((list, notes))
}

} // verus!
