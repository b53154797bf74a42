//! The tokenizer: from text to tokens, one at a time.
use vstd::prelude::*;
use vstd::string::StringExecFns;
use crate::chars::{
    digit, is_digit, is_number_part, is_quote, is_space, is_symbol, is_word_part, is_word_start,
    number_part, quote, space, symbol, word_part, word_start,
};
use crate::token::{Token, TokenView};

verus! {

/// `String::push` of std, taken as its documentation has it: the string
/// afterwards is the string before with `c` behind it.
pub assume_specification[ String::push ](s: &mut String, c: char)
    ensures
        final(s)@ == old(s)@.push(c),
;

/// The reserved words.
pub open spec fn is_keyword(word: Seq<char>) -> bool {
    word == "let"@ || word == "const"@ || word == "function"@ || word == "if"@ || word == "else"@
        || word == "return"@
}

/// The names of the primitive types.
pub open spec fn is_type_name(word: Seq<char>) -> bool {
    word == "i8"@ || word == "i16"@ || word == "i32"@ || word == "i64"@ || word == "u8"@ || word
        == "u16"@ || word == "u32"@ || word == "u64"@ || word == "string"@ || word == "number"@
}

/// The token that a word stands for: a keyword, a type name, or else an
/// identifier.
pub open spec fn word_token(word: Seq<char>) -> TokenView {
    if is_keyword(word) {
        TokenView::Keyword(word)
    } else if is_type_name(word) {
        TokenView::Type(word)
    } else {
        TokenView::Ident(word)
    }
}

/// Whether `text` is a decimal numeral: digits with at most one point among
/// them, the first character a digit.
pub open spec fn is_number_text(text: Seq<char>) -> bool {
    &&& text.len() > 0
    &&& is_digit(text[0])
    &&& forall|i: int| 0 <= i < text.len() ==> is_digit(#[trigger] text[i]) || text[i] == '.'
    &&& forall|i: int, j: int|
        0 <= i < j < text.len() ==> !(#[trigger] text[i] == '.' && #[trigger] text[j] == '.')
}

/// Which characters a run is made of.
#[derive(Clone, Copy, Debug)]
pub enum Run {
    Spaces,
    Word,
    Number,
    /// Everything up to the given closing quote.
    Quoted(char),
}

impl Run {
    /// Whether `c` continues a run of this kind.
    pub open spec fn holds(self, c: char) -> bool {
        match self {
            Run::Spaces => is_space(c),
            Run::Word => is_word_part(c),
            Run::Number => is_number_part(c),
            Run::Quoted(q) => c != q,
        }
    }

    /// Whether `c` continues a run of this kind.
    pub fn accepts(&self, c: char) -> (r: bool)
        ensures
            r == self.holds(c),
    {
        match self {
            Run::Spaces => space(c),
            Run::Word => word_part(c),
            Run::Number => number_part(c),
            Run::Quoted(q) => c != *q,
        }
    }
}

/// Where the run of `run` characters that starts at `from` ends: the first
/// position at or after `from` that holds no such character, or the length of
/// the text.
pub open spec fn run_end(text: Seq<char>, from: int, run: Run) -> int
    decreases text.len() - from,
{
    if 0 <= from < text.len() && run.holds(text[from]) {
        run_end(text, from + 1, run)
    } else {
        from
    }
}

/// What the tokenizer finds at a position: the token, if any is left, and the
/// position behind it.
pub ghost struct Lexed {
    pub token: Option<TokenView>,
    pub end: int,
}

/// The token that starts at or after `pos` in `text`, blanks skipped.
///
/// A string literal runs from a quote to the next occurrence of the same
/// quote, or to the end of the text. A word runs over alphanumeric characters
/// and underscores, a numeric literal over numeric characters and points.
/// Every other character is a token by itself.
pub open spec fn lex(text: Seq<char>, pos: int) -> Lexed {
    let start = run_end(text, pos, Run::Spaces);
    if !(0 <= start < text.len()) {
        Lexed { token: None, end: start }
    } else {
        let c = text[start];
        if is_quote(c) {
            let close = run_end(text, start + 1, Run::Quoted(c));
            Lexed {
                token: Some(TokenView::StringLiteral(text.subrange(start + 1, close))),
                end: if close < text.len() {
                    close + 1
                } else {
                    close
                },
            }
        } else if is_word_start(c) {
            let end = run_end(text, start, Run::Word);
            Lexed { token: Some(word_token(text.subrange(start, end))), end }
        } else if is_digit(c) {
            let end = run_end(text, start, Run::Number);
            Lexed { token: Some(TokenView::Number(text.subrange(start, end))), end }
        } else if is_symbol(c) {
            Lexed { token: Some(TokenView::Symbol(c)), end: start + 1 }
        } else {
            Lexed { token: Some(TokenView::Unknown(c)), end: start + 1 }
        }
    }
}

/// A token that the tokenizer accepts: any but a numeric literal that is no
/// decimal numeral.
pub open spec fn well_formed(token: TokenView) -> bool {
    token matches TokenView::Number(text) ==> is_number_text(text)
}

/// The tokens of `text` from `pos` on, in order.
pub open spec fn tokens_from(text: Seq<char>, pos: int) -> Seq<TokenView>
    decreases text.len() - pos,
{
    let lexed = lex(text, pos);
    if 0 <= pos <= text.len() && lexed.token is Some {
        proof {
            lemma_lex_advances(text, pos);
        }
        seq![lexed.token->0] + tokens_from(text, lexed.end)
    } else {
        Seq::empty()
    }
}

/// Whether every token of the sequence is well formed.
pub open spec fn all_well_formed(tokens: Seq<TokenView>) -> bool {
    forall|i: int| 0 <= i < tokens.len() ==> well_formed(#[trigger] tokens[i])
}

/// A run ends at or after its start and within the text, holds only
/// characters of its kind, and stops at the first other character.
pub proof fn lemma_run_end(text: Seq<char>, from: int, run: Run)
    requires
        0 <= from <= text.len(),
    ensures
        from <= run_end(text, from, run) <= text.len(),
        forall|i: int| from <= i < run_end(text, from, run) ==> run.holds(#[trigger] text[i]),
        run_end(text, from, run) < text.len() ==> !run.holds(text[run_end(text, from, run)]),
    decreases text.len() - from,
{
    if from < text.len() && run.holds(text[from]) {
        lemma_run_end(text, from + 1, run);
    }
}

/// A position that ends a stretch of characters of one kind, and is followed
/// by a character of another kind or by nothing, is where the run ends.
pub proof fn lemma_run_end_is(text: Seq<char>, from: int, run: Run, end: int)
    requires
        0 <= from <= end <= text.len(),
        forall|i: int| from <= i < end ==> run.holds(#[trigger] text[i]),
        end < text.len() ==> !run.holds(text[end]),
    ensures
        run_end(text, from, run) == end,
    decreases end - from,
{
    if from < end {
        lemma_run_end_is(text, from + 1, run, end);
    }
}

/// The tokenizer moves forward: a token ends behind the position it was asked
/// at, and no position lies beyond the text.
pub proof fn lemma_lex_advances(text: Seq<char>, pos: int)
    requires
        0 <= pos <= text.len(),
    ensures
        pos <= lex(text, pos).end <= text.len(),
        lex(text, pos).token is Some ==> pos < lex(text, pos).end,
        lex(text, pos).token is None ==> lex(text, pos).end == text.len(),
{
    lemma_run_end(text, pos, Run::Spaces);
    let start = run_end(text, pos, Run::Spaces);
    if start < text.len() {
        let c = text[start];
        lemma_run_end(text, start + 1, Run::Quoted(c));
        lemma_run_end(text, start, Run::Word);
        lemma_run_end(text, start, Run::Number);
    }
}


/// The tokens from a position on are the token found there and the tokens
/// from behind it on. Where all of them are well formed, so are the first and
/// the others.
pub proof fn lemma_tokens_from_step(text: Seq<char>, pos: int)
    requires
        0 <= pos <= text.len(),
    ensures
        pos <= lex(text, pos).end <= text.len(),
        match lex(text, pos).token {
            Some(token) => tokens_from(text, pos) == seq![token] + tokens_from(
                text,
                lex(text, pos).end,
            ),
            None => tokens_from(text, pos).len() == 0 && tokens_from(text, lex(text, pos).end).len()
                == 0,
        },
        all_well_formed(tokens_from(text, pos)) ==> all_well_formed(
            tokens_from(text, lex(text, pos).end),
        ) && (lex(text, pos).token matches Some(token) ==> well_formed(token)),
{
    lemma_lex_advances(text, pos);
    let end = lex(text, pos).end;
    let all = tokens_from(text, pos);
    let tail = tokens_from(text, end);
    match lex(text, pos).token {
        Some(token) => {
            if all_well_formed(all) {
                assert(all[0] == token);
                assert forall|i: int| 0 <= i < tail.len() implies well_formed(#[trigger] tail[i]) by {
                    assert(tail[i] == all[i + 1]);
                }
            }
        },
        None => {
            assert(run_end(text, end, Run::Spaces) == end);
        },
    }
}

/// Whether `text` is a word: a letter or an underscore, followed by
/// alphanumeric characters and underscores.
pub open spec fn is_word(text: Seq<char>) -> bool {
    &&& text.len() > 0
    &&& is_word_start(text[0])
    &&& forall|i: int| 0 <= i < text.len() ==> is_word_part(#[trigger] text[i])
}

/// Whether a token is one that the tokenizer hands out: a keyword, a type
/// name or an identifier is a word of its kind, a numeric literal begins with
/// a digit and goes on with numeric characters and points, a string literal
/// lacks one of the three quotes, a symbol is one of the punctuation
/// characters, and an unrecognized character belongs to no class.
pub open spec fn genuine(token: TokenView) -> bool {
    match token {
        TokenView::Keyword(word) => is_word(word) && is_keyword(word),
        TokenView::Type(word) => is_word(word) && !is_keyword(word) && is_type_name(word),
        TokenView::Ident(word) => is_word(word) && !is_keyword(word) && !is_type_name(word),
        TokenView::Number(text) => {
            &&& text.len() > 0
            &&& is_digit(text[0])
            &&& forall|i: int| 0 <= i < text.len() ==> is_number_part(#[trigger] text[i])
        },
        TokenView::StringLiteral(text) => !text.contains('"') || !text.contains('`')
            || !text.contains('\''),
        TokenView::Symbol(c) => is_symbol(c),
        TokenView::Unknown(c) => !is_space(c) && !is_quote(c) && !is_word_start(c) && !is_digit(c)
            && !is_symbol(c),
    }
}

/// A quote that does not occur in `text`, if there is one.
pub open spec fn free_quote(text: Seq<char>) -> char {
    if !text.contains('"') {
        '"'
    } else if !text.contains('`') {
        '`'
    } else {
        '\''
    }
}

/// How a token is written: a string literal between two quotes that it
/// does not hold, any other token as it is.
pub open spec fn spelling(token: TokenView) -> Seq<char> {
    match token {
        TokenView::Keyword(word) => word,
        TokenView::Type(word) => word,
        TokenView::Ident(word) => word,
        TokenView::Number(text) => text,
        TokenView::StringLiteral(text) => seq![free_quote(text)] + text + seq![free_quote(text)],
        TokenView::Symbol(c) => seq![c],
        TokenView::Unknown(c) => seq![c],
    }
}

/// Every token that the tokenizer finds is genuine.
pub proof fn lemma_lex_genuine(text: Seq<char>, pos: int)
    requires
        0 <= pos <= text.len(),
    ensures
        lex(text, pos).token matches Some(token) ==> genuine(token),
{
    lemma_run_end(text, pos, Run::Spaces);
    let start = run_end(text, pos, Run::Spaces);
    if start < text.len() {
        let c = text[start];
        if is_quote(c) {
            lemma_run_end(text, start + 1, Run::Quoted(c));
            let close = run_end(text, start + 1, Run::Quoted(c));
            let inner = text.subrange(start + 1, close);
            if inner.contains(c) {
                let i = choose|i: int| 0 <= i < inner.len() && inner[i] == c;
                assert(Run::Quoted(c).holds(text[start + 1 + i]));
            }
        } else if is_word_start(c) {
            lemma_run_end(text, start, Run::Word);
            let end = run_end(text, start, Run::Word);
            let word = text.subrange(start, end);
            assert(Run::Word.holds(text[start]));
            assert forall|i: int| 0 <= i < word.len() implies is_word_part(#[trigger] word[i]) by {
                assert(Run::Word.holds(text[start + i]));
            }
        } else if is_digit(c) {
            lemma_run_end(text, start, Run::Number);
            let end = run_end(text, start, Run::Number);
            let run = text.subrange(start, end);
            assert(Run::Number.holds(text[start]));
            assert forall|i: int| 0 <= i < run.len() implies is_number_part(#[trigger] run[i]) by {
                assert(Run::Number.holds(text[start + i]));
            }
        }
    }
}

/// Tokenizing a genuine token as it is written gives that token and no
/// other: what the tokenizer hands out, it reads back.
pub proof fn lemma_retokenize(token: TokenView)
    requires
        genuine(token),
    ensures
        tokens_from(spelling(token), 0) == seq![token],
{
    let text = spelling(token);
    let len = text.len() as int;
    assert(text.subrange(0, len) == text);
    match token {
        TokenView::StringLiteral(inner) => {
            let q = free_quote(inner);
            assert(!inner.contains(q));
            assert forall|i: int| 1 <= i < len - 1 implies Run::Quoted(q).holds(
                #[trigger] text[i],
            ) by {
                assert(text[i] == inner[i - 1]);
                assert(inner.contains(inner[i - 1]));
            }
            assert(text[len - 1] == q);
            lemma_run_end_is(text, 1, Run::Quoted(q), len - 1);
            assert(text.subrange(1, len - 1) == inner);
        },
        TokenView::Keyword(_) | TokenView::Type(_) | TokenView::Ident(_) => {
            assert forall|i: int| 0 <= i < len implies Run::Word.holds(#[trigger] text[i]) by {}
            lemma_run_end_is(text, 0, Run::Word, len);
        },
        TokenView::Number(_) => {
            assert forall|i: int| 0 <= i < len implies Run::Number.holds(#[trigger] text[i]) by {}
            lemma_run_end_is(text, 0, Run::Number, len);
        },
        _ => {},
    }
    assert(run_end(text, 0, Run::Spaces) == 0);
    assert(lex(text, 0).token == Some(token));
    assert(lex(text, 0).end == len);
    lemma_tokens_from_step(text, 0);
    assert(run_end(text, len, Run::Spaces) == len);
    assert(tokens_from(text, len).len() == 0);
    assert(seq![token] + tokens_from(text, len) == seq![token]);
}

/// Whether `c` occurs in `text`.
fn occurs(text: &String, c: char) -> (found: bool)
    ensures
        found == text@.contains(c),
{
    broadcast use vstd::string::group_string_axioms;

    let ghost all = text@;
    let mut found = false;
    for x in it: text.as_str().chars()
        invariant
            it.seq() == all,
            found == exists|i: int| 0 <= i < it.index() && all[i] == c,
    {
        if x == c {
            found = true;
        }
    }
    found
}

impl Token {
    /// The token as it is written: a string literal between two quotes that
    /// it does not hold, any other token as it is. A genuine token is read
    /// back from this text (`lemma_retokenize`).
    pub fn spelling(&self) -> (text: String)
        ensures
            text@ == spelling(self@),
    {
        match self {
            Token::Keyword(word) => word.clone(),
            Token::Ident(word) => word.clone(),
            Token::Type(word) => word.clone(),
            Token::Number(number) => number.clone(),
            Token::StringLiteral(inner) => {
                let q = if !occurs(inner, '"') {
                    '"'
                } else if !occurs(inner, '`') {
                    '`'
                } else {
                    '\''
                };
                let mut text = String::new();
                text.push(q);
                text.append(inner.as_str());
                text.push(q);
                proof {
                    assert(text@ == seq![q] + inner@ + seq![q]);
                }
                text
            },
            Token::Symbol(c) => {
                let mut text = String::new();
                text.push(*c);
                proof {
                    assert(text@ == seq![*c]);
                }
                text
            },
            Token::Unknown(c) => {
                let mut text = String::new();
                text.push(*c);
                proof {
                    assert(text@ == seq![*c]);
                }
                text
            },
        }
    }
}

/// Whether a word is spelled as `literal` is.
fn spelled(word: &String, literal: &str) -> (r: bool)
    ensures
        r == (word@ == literal@),
{
    let other = literal.to_owned();
    *word == other
}

/// The token that a word stands for.
pub fn classify(word: String) -> (token: Token)
    ensures
        token@ == word_token(word@),
{
    if spelled(&word, "let") || spelled(&word, "const") || spelled(&word, "function") || spelled(
        &word,
        "if",
    ) || spelled(&word, "else") || spelled(&word, "return") {
        Token::Keyword(word)
    } else if spelled(&word, "i8") || spelled(&word, "i16") || spelled(&word, "i32") || spelled(
        &word,
        "i64",
    ) || spelled(&word, "u8") || spelled(&word, "u16") || spelled(&word, "u32") || spelled(
        &word,
        "u64",
    ) || spelled(&word, "string") || spelled(&word, "number") {
        Token::Type(word)
    } else {
        Token::Ident(word)
    }
}

/// A cursor over a text that hands out its tokens one by one.
pub struct Lexer {
    chars: Vec<char>,
    pos: usize,
}

impl Lexer {
    /// The cursor lies within the text.
    #[verifier::type_invariant]
    pub open spec fn within_text(self) -> bool {
        0 <= self.position() <= self.text().len()
    }

    /// The whole text.
    pub closed spec fn text(&self) -> Seq<char> {
        self.chars@
    }

    /// How many characters lie behind the cursor.
    pub closed spec fn position(&self) -> int {
        self.pos as int
    }

    /// A tokenizer at the start of `input`.
    pub fn new(input: &str) -> (lexer: Lexer)
        ensures
            lexer.text() == input@,
            lexer.position() == 0,
    {
        broadcast use vstd::string::group_string_axioms;

        let mut chars: Vec<char> = Vec::new();
        for c in it: input.chars()
            invariant
                chars.len() == it.index(),
                forall|i: int| 0 <= i < chars.len() ==> chars@[i] == it.seq()[i],
                it.seq() == input@,
        {
            chars.push(c);
        }
        Lexer { chars, pos: 0 }
    }

    /// The character under the cursor, if the text has not ended.
    pub fn current(&self) -> (c: Option<char>)
        ensures
            0 <= self.position() <= self.text().len(),
            c == if self.position() < self.text().len() {
                Some(self.text()[self.position()])
            } else {
                None
            },
    {
        proof {
            use_type_invariant(self);
        }
        if self.pos < self.chars.len() {
            Some(self.chars[self.pos])
        } else {
            None
        }
    }

    /// Moves the cursor one character forward, unless the text has ended.
    pub fn advance(&mut self)
        ensures
            final(self).text() == old(self).text(),
            final(self).position() == if old(self).position() < old(self).text().len() {
                old(self).position() + 1
            } else {
                old(self).position()
            },
    {
        proof {
            use_type_invariant(&*self);
        }
        if self.pos < self.chars.len() {
            self.pos = self.pos + 1;
        }
    }

    /// The tokens that are left, in order.
    pub open spec fn remaining(&self) -> Seq<TokenView> {
        tokens_from(self.text(), self.position())
    }

    /// What `next_token` is about to find.
    pub open spec fn upcoming(&self) -> Lexed {
        lex(self.text(), self.position())
    }

    /// The next token, or `None` when only blanks are left. The cursor moves
    /// behind the token.
    ///
    /// A numeric literal that is no decimal numeral, such as `1.2.3`, is not
    /// tokenized: `next_is_well_formed` tells whether one is ahead.
    pub fn next_token(&mut self) -> (token: Option<Token>)
        requires
            old(self).upcoming().token matches Some(t) ==> well_formed(t),
        ensures
            final(self).text() == old(self).text(),
            final(self).position() == old(self).upcoming().end,
            match token {
                Some(t) => old(self).upcoming().token == Some(t@) && well_formed(t@),
                None => old(self).upcoming().token is None,
            },
    {
        proof {
            use_type_invariant(&*self);
            lemma_run_end(self.chars@, self.pos as int, Run::Spaces);
        }
        while self.pos < self.chars.len() && space(self.chars[self.pos])
            invariant
                self.chars@ == old(self).chars@,
                old(self).pos <= self.pos <= self.chars.len(),
                run_end(self.chars@, old(self).pos as int, Run::Spaces) == run_end(
                    self.chars@,
                    self.pos as int,
                    Run::Spaces,
                ),
            decreases self.chars.len() - self.pos,
        {
            self.advance();
        }
        match self.current() {
            None => None,
            Some(c) => {
                if quote(c) {
                    Some(self.str_literal(c))
                } else if word_start(c) {
                    Some(self.ident_type())
                } else if digit(c) {
                    Some(self.number())
                } else if symbol(c) {
                    self.advance();
                    Some(Token::Symbol(c))
                } else {
                    self.advance();
                    Some(Token::Unknown(c))
                }
            },
        }
    }

    /// Whether `next_token` may be called: whether what it is about to find
    /// is well formed.
    pub fn upcoming_well_formed(&self) -> (ok: bool)
        ensures
            ok == (self.upcoming().token matches Some(t) ==> well_formed(t)),
    {
        proof {
            use_type_invariant(self);
            lemma_run_end(self.chars@, self.pos as int, Run::Spaces);
        }
        let mut start = self.pos;
        while start < self.chars.len() && space(self.chars[start])
            invariant
                self.pos <= start <= self.chars.len(),
                run_end(self.chars@, self.pos as int, Run::Spaces) == run_end(
                    self.chars@,
                    start as int,
                    Run::Spaces,
                ),
            decreases self.chars.len() - start,
        {
            start = start + 1;
        }
        if start >= self.chars.len() || !digit(self.chars[start]) {
            return true;
        }
        proof {
            lemma_run_end(self.chars@, start as int, Run::Number);
        }
        let mut end = start;
        let mut pointed = false;
        let mut ok = true;
        while end < self.chars.len() && number_part(self.chars[end])
            invariant
                start <= end <= self.chars.len(),
                run_end(self.chars@, start as int, Run::Number) == run_end(
                    self.chars@,
                    end as int,
                    Run::Number,
                ),
                pointed == exists|i: int| start <= i < end && self.chars@[i] == '.',
                ok == ((forall|i: int|
                    start <= i < end ==> is_digit(#[trigger] self.chars@[i]) || self.chars@[i]
                        == '.') && (forall|i: int, j: int|
                    start <= i < j < end ==> !(#[trigger] self.chars@[i] == '.'
                        && #[trigger] self.chars@[j] == '.'))),
            decreases self.chars.len() - end,
        {
            let c = self.chars[end];
            if c == '.' {
                if pointed {
                    ok = false;
                }
                pointed = true;
            } else if !digit(c) {
                ok = false;
            }
            end = end + 1;
        }
        proof {
            let text = self.chars@.subrange(start as int, end as int);
            assert(self.upcoming().token == Some(TokenView::Number(text)));
            if ok {
                assert(is_number_text(text));
            } else {
                if !(forall|i: int|
                    start <= i < end ==> is_digit(#[trigger] self.chars@[i]) || self.chars@[i]
                        == '.') {
                    let i = choose|i: int|
                        start <= i < end && !(is_digit(#[trigger] self.chars@[i])
                            || self.chars@[i] == '.');
                    assert(text[i - start] == self.chars@[i]);
                } else {
                    let (i, j) = choose|i: int, j: int|
                        start <= i < j < end && (#[trigger] self.chars@[i] == '.'
                            && #[trigger] self.chars@[j] == '.');
                    assert(text[i - start] == self.chars@[i]);
                    assert(text[j - start] == self.chars@[j]);
                }
                assert(!is_number_text(text));
            }
        }
        ok
    }

    /// The string literal whose opening quote `q` is under the cursor. It ends
    /// with the next `q`, or with the text.
    fn str_literal(&mut self, q: char) -> (token: Token)
        requires
            old(self).position() < old(self).text().len(),
            old(self).text()[old(self).position()] == q,
        ensures
            final(self).text() == old(self).text(),
            ({
                let text = old(self).text();
                let close = run_end(text, old(self).position() + 1, Run::Quoted(q));
                &&& token@ == TokenView::StringLiteral(
                    text.subrange(old(self).position() + 1, close),
                )
                &&& final(self).position() == if close < text.len() {
                    close + 1
                } else {
                    close
                }
            }),
    {
        proof {
            lemma_run_end(self.text(), self.position() + 1, Run::Quoted(q));
        }
        self.advance();
        let result = self.take_run(Run::Quoted(q));
        self.advance();
        Token::StringLiteral(result)
    }

    /// The word under the cursor, as a keyword, a type name or an identifier.
    fn ident_type(&mut self) -> (token: Token)
        ensures
            final(self).text() == old(self).text(),
            final(self).position() == run_end(old(self).text(), old(self).position(), Run::Word),
            token@ == word_token(
                old(self).text().subrange(old(self).position(), final(self).position()),
            ),
    {
        let result = self.take_run(Run::Word);
        classify(result)
    }

    /// The numeric literal under the cursor.
    fn number(&mut self) -> (token: Token)
        ensures
            final(self).text() == old(self).text(),
            final(self).position() == run_end(
                old(self).text(),
                old(self).position(),
                Run::Number,
            ),
            token@ == TokenView::Number(
                old(self).text().subrange(old(self).position(), final(self).position()),
            ),
    {
        let result = self.take_run(Run::Number);
        Token::Number(result)
    }

    /// Takes the run of `run` characters under the cursor.
    fn take_run(&mut self, run: Run) -> (taken: String)
        ensures
            final(self).text() == old(self).text(),
            final(self).position() == run_end(old(self).text(), old(self).position(), run),
            taken@ == old(self).text().subrange(old(self).position(), final(self).position()),
    {
        proof {
            use_type_invariant(&*self);
            lemma_run_end(self.chars@, self.pos as int, run);
        }
        let ghost start = self.pos as int;
        let mut taken = String::new();
        while self.pos < self.chars.len() && run.accepts(self.chars[self.pos])
            invariant
                self.chars@ == old(self).chars@,
                start == old(self).pos,
                start <= self.pos <= self.chars.len(),
                run_end(self.chars@, start, run) == run_end(self.chars@, self.pos as int, run),
                taken@ == self.chars@.subrange(start, self.pos as int),
            decreases self.chars.len() - self.pos,
        {
            taken.push(self.chars[self.pos]);
            self.pos = self.pos + 1;
        }
        taken
    }
}

/// The values of a list of tokens, in order.
pub open spec fn token_views(tokens: Seq<Token>) -> Seq<TokenView> {
    tokens.map_values(|token: Token| token@)
}

/// All the tokens of `input`, or `None` if a numeric literal among them is
/// no decimal numeral.
pub fn tokenize(input: &str) -> (result: Option<Vec<Token>>)
    ensures
        match result {
            Some(tokens) => token_views(tokens@) == tokens_from(input@, 0) && all_well_formed(
                tokens_from(input@, 0),
            ),
            None => !all_well_formed(tokens_from(input@, 0)),
        },
{
    let mut lexer = Lexer::new(input);
    let mut tokens: Vec<Token> = Vec::new();
    let ghost all = tokens_from(input@, 0);
    proof {
        assert(token_views(tokens@) + lexer.remaining() == all);
    }
    loop
        invariant
            lexer.text() == input@,
            all == tokens_from(input@, 0),
            token_views(tokens@) + lexer.remaining() == all,
            all_well_formed(token_views(tokens@)),
        decreases lexer.text().len() - lexer.position(),
    {
        proof {
            use_type_invariant(&lexer);
            lemma_tokens_from_step(lexer.text(), lexer.position());
        }
        let ghost left = lexer.remaining();
        let ghost taken = token_views(tokens@);
        if !lexer.upcoming_well_formed() {
            proof {
                assert(all[taken.len() as int] == left[0]);
            }
            return None;
        }
        match lexer.next_token() {
            Some(token) => {
                tokens.push(token);
                proof {
                    assert(token_views(tokens@) == taken.push(token@));
                    assert(taken.push(token@) + lexer.remaining() == taken + left);
                }
            },
            None => {
                proof {
                    assert(taken + left == taken);
                }
                return Some(tokens);
            },
        }
    }
}

} // verus!
