use sexpr::parse::{tokenize, Token, TokenizerError};

#[test]
fn test_braces() {
    let mut tokenizer = tokenize("()(");
    assert_eq!(tokenizer.next_token(), Ok(Token::LBrace));
    assert_eq!(tokenizer.next_token(), Ok(Token::RBrace));
    assert_eq!(tokenizer.next_token(), Ok(Token::LBrace));
    assert_eq!(tokenizer.next_token(), Ok(Token::EOF));
}

#[test]
fn parse_test_symbols() {
    let mut tokenizer = tokenize("aAL_-");
    assert_eq!(tokenizer.next_token(), Ok(Token::Symbol("aAL_-")));

    let mut tokenizer = tokenize("one two");
    assert_eq!(tokenizer.next_token(), Ok(Token::Symbol("one")));
    assert_eq!(tokenizer.next_token(), Ok(Token::Symbol("two")));
}

#[test]
fn quoting_punctuation() {
    let mut tokenizer = tokenize("'`,@");
    assert_eq!(tokenizer.next_token(), Ok(Token::Quote));
    assert_eq!(tokenizer.next_token(), Ok(Token::QuasiQuote));
    assert_eq!(tokenizer.next_token(), Ok(Token::Unquote));
    assert_eq!(tokenizer.next_token(), Ok(Token::Unpack));
    assert_eq!(tokenizer.next_token(), Ok(Token::EOF));
}

#[test]
fn eof_repeats() {
    let mut tokenizer = tokenize("  \t\n ");
    assert_eq!(tokenizer.next_token(), Ok(Token::EOF));
    assert_eq!(tokenizer.next_token(), Ok(Token::EOF));
}

#[test]
fn unscannable_character() {
    let mut tokenizer = tokenize("1");
    assert_eq!(tokenizer.next_token(), Err(TokenizerError));
}
