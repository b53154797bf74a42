use toy_parser::chars::{digit, number_part, quote, space, symbol, word_part, word_start};
use toy_parser::lexer::{classify, tokenize, Lexer, Run};
use toy_parser::token::Token;

fn tokens(source: &str) -> Vec<Token> {
    tokenize(source).unwrap()
}

fn word(text: &str) -> Token {
    Token::Ident(text.to_string())
}

fn number(text: &str) -> Token {
    Token::Number(text.to_string())
}

#[test]
fn declaration_is_six_tokens() {
    assert_eq!(
        tokens("let x: number = 42;"),
        vec![
            Token::Keyword("let".to_string()),
            word("x"),
            Token::Symbol(':'),
            Token::Type("number".to_string()),
            Token::Symbol('='),
            number("42"),
            Token::Symbol(';'),
        ]
    );
}

#[test]
fn every_keyword_is_a_keyword() {
    for text in ["let", "const", "function", "if", "else", "return"] {
        assert_eq!(tokens(text), vec![Token::Keyword(text.to_string())]);
    }
}

#[test]
fn every_type_name_is_a_type() {
    for text in ["i8", "i16", "i32", "i64", "u8", "u16", "u32", "u64", "string", "number"] {
        assert_eq!(tokens(text), vec![Token::Type(text.to_string())]);
    }
}

#[test]
fn other_words_are_identifiers() {
    assert_eq!(tokens("lets _x a1_b If"), vec![word("lets"), word("_x"), word("a1_b"), word("If")]);
    assert_eq!(classify("i128".to_string()), word("i128"));
    assert_eq!(classify("else".to_string()), Token::Keyword("else".to_string()));
}

#[test]
fn words_go_on_with_letters_of_any_script() {
    assert_eq!(tokens("caf\u{e9}7 x"), vec![word("caf\u{e9}7"), word("x")]);
    // A word begins with a letter of ASCII or an underscore only.
    assert_eq!(tokens("\u{e9}a"), vec![Token::Unknown('\u{e9}'), word("a")]);
}

#[test]
fn every_symbol_is_a_token() {
    let text = ":;,{}()+-*/=<>.";
    let expected: Vec<Token> = text.chars().map(Token::Symbol).collect();
    assert_eq!(tokens(text), expected);
}

#[test]
fn two_character_operators_are_two_tokens() {
    assert_eq!(tokens("=="), vec![Token::Symbol('='), Token::Symbol('=')]);
    assert_eq!(tokens("<="), vec![Token::Symbol('<'), Token::Symbol('=')]);
    assert_eq!(tokens(">="), vec![Token::Symbol('>'), Token::Symbol('=')]);
    assert_eq!(tokens("!="), vec![Token::Unknown('!'), Token::Symbol('=')]);
    assert_eq!(tokens("&&"), vec![Token::Unknown('&'), Token::Unknown('&')]);
    assert_eq!(tokens("||"), vec![Token::Unknown('|'), Token::Unknown('|')]);
}

#[test]
fn unrecognized_characters_are_tokens() {
    assert_eq!(
        tokens("@ # \r"),
        vec![Token::Unknown('@'), Token::Unknown('#'), Token::Unknown('\r')]
    );
}

#[test]
fn blanks_separate_and_vanish() {
    assert_eq!(tokens("  a\n\tb  "), vec![word("a"), word("b")]);
    assert_eq!(tokens(""), vec![]);
    assert_eq!(tokens(" \n\t"), vec![]);
}

#[test]
fn string_literals_in_three_quotes() {
    assert_eq!(tokens("\"a b\""), vec![Token::StringLiteral("a b".to_string())]);
    assert_eq!(tokens("'a b'"), vec![Token::StringLiteral("a b".to_string())]);
    assert_eq!(tokens("`a b`"), vec![Token::StringLiteral("a b".to_string())]);
    assert_eq!(tokens("\"\""), vec![Token::StringLiteral(String::new())]);
}

#[test]
fn string_literal_ends_with_its_own_quote_only() {
    assert_eq!(tokens("\"it's `x`\" y"), vec![Token::StringLiteral("it's `x`".to_string()), word("y")]);
}

#[test]
fn string_literal_takes_escapes_as_they_are() {
    assert_eq!(
        tokens("\"a\\\" b"),
        vec![Token::StringLiteral("a\\".to_string()), word("b")]
    );
}

#[test]
fn unterminated_string_ends_with_the_text() {
    assert_eq!(tokens("\"abc def"), vec![Token::StringLiteral("abc def".to_string())]);
    assert_eq!(tokens("x '"), vec![word("x"), Token::StringLiteral(String::new())]);
}

#[test]
fn numbers_with_and_without_point() {
    assert_eq!(tokens("42 1.5 7. 0.25"), vec![number("42"), number("1.5"), number("7."), number("0.25")]);
}

#[test]
fn point_before_a_digit_is_a_symbol() {
    assert_eq!(tokens(".5"), vec![Token::Symbol('.'), number("5")]);
}

#[test]
fn number_ends_before_a_letter() {
    assert_eq!(tokens("12ab"), vec![number("12"), word("ab")]);
}

#[test]
fn malformed_number_stops_tokenizing() {
    assert_eq!(tokenize("1.2.3"), None);
    assert_eq!(tokenize("x = 1..2"), None);
    assert_eq!(tokenize("a 1.2.3 b"), None);
    // A numeric character outside ASCII goes on with the literal and spoils it.
    assert_eq!(tokenize("1\u{b2}"), None);
    assert_eq!(tokenize("1\u{663}"), None);
}

#[test]
fn malformed_number_inside_a_string_is_text() {
    assert_eq!(tokens("\"1.2.3\""), vec![Token::StringLiteral("1.2.3".to_string())]);
}

#[test]
fn lexer_hands_out_tokens_one_by_one() {
    let mut lexer = Lexer::new("f ( 1");
    assert!(lexer.upcoming_well_formed());
    assert_eq!(lexer.next_token(), Some(word("f")));
    assert_eq!(lexer.next_token(), Some(Token::Symbol('(')));
    assert_eq!(lexer.next_token(), Some(number("1")));
    assert_eq!(lexer.next_token(), None);
    assert_eq!(lexer.next_token(), None);
}

#[test]
fn lexer_tells_a_malformed_number_ahead() {
    let mut lexer = Lexer::new("a  1.2.3");
    assert!(lexer.upcoming_well_formed());
    assert_eq!(lexer.next_token(), Some(word("a")));
    assert!(!lexer.upcoming_well_formed());
    let mut lexer = Lexer::new("1.5 x");
    assert!(lexer.upcoming_well_formed());
    assert_eq!(lexer.next_token(), Some(number("1.5")));
    assert!(lexer.upcoming_well_formed());
}

#[test]
fn cursor_moves_by_characters() {
    let mut lexer = Lexer::new("\u{e9}b");
    assert_eq!(lexer.current(), Some('\u{e9}'));
    lexer.advance();
    assert_eq!(lexer.current(), Some('b'));
    lexer.advance();
    assert_eq!(lexer.current(), None);
    lexer.advance();
    assert_eq!(lexer.current(), None);
}

#[test]
fn written_tokens_are_read_back() {
    for text in [
        "foo", "_", "x1", "let", "u64", "1.5", "42", "7.", "\"abc\"", "'it is'", "`\"'`", "''",
        "+", "@",
    ] {
        let first = tokens(text);
        assert_eq!(first.len(), 1, "{}", text);
        assert_eq!(tokens(&first[0].spelling()), first);
    }
}

#[test]
fn tokens_are_spelled_as_written() {
    assert_eq!(word("abc").spelling(), "abc");
    assert_eq!(number("1.50").spelling(), "1.50");
    assert_eq!(Token::Keyword("if".to_string()).spelling(), "if");
    assert_eq!(Token::Type("i8".to_string()).spelling(), "i8");
    assert_eq!(Token::Symbol('{').spelling(), "{");
    assert_eq!(Token::Unknown('#').spelling(), "#");
}

#[test]
fn string_literal_is_spelled_between_quotes_it_does_not_hold() {
    assert_eq!(Token::StringLiteral("a".to_string()).spelling(), "\"a\"");
    assert_eq!(Token::StringLiteral("say \"a\"".to_string()).spelling(), "`say \"a\"`");
    assert_eq!(Token::StringLiteral("\"`".to_string()).spelling(), "'\"`'");
}

#[test]
fn character_classes() {
    assert!(space(' ') && space('\n') && space('\t') && !space('\r') && !space('a'));
    assert!(quote('"') && quote('`') && quote('\'') && !quote('a'));
    assert!(digit('0') && digit('9') && !digit('a') && !digit('\u{663}'));
    assert!(word_start('a') && word_start('Z') && word_start('_') && !word_start('1'));
    assert!(!word_start('\u{e9}'));
    assert!(word_part('a') && word_part('1') && word_part('_') && word_part('\u{e9}'));
    assert!(!word_part('-') && !word_part(' '));
    assert!(number_part('1') && number_part('.') && number_part('\u{663}') && !number_part('a'));
    assert!(symbol(':') && symbol('.') && symbol('>') && !symbol('!') && !symbol('&'));
}

#[test]
fn runs_accept_their_characters() {
    assert!(Run::Spaces.accepts(' ') && !Run::Spaces.accepts('x'));
    assert!(Run::Word.accepts('x') && !Run::Word.accepts(' '));
    assert!(Run::Number.accepts('.') && !Run::Number.accepts('x'));
    assert!(Run::Quoted('"').accepts('\'') && !Run::Quoted('"').accepts('"'));
}
