//! A standalone scanner over borrowed text: its symbol tokens point
//! into the input instead of copying it, and it recognizes the quoting
//! punctuation (`'`, `` ` ``, `,`, `@`) as token shapes of their own.
//! Exhaustion is itself a token, `EOF`, so a caller may pull tokens
//! until it sees one.

use vstd::prelude::*;

verus! {

/// A token over borrowed text.
#[derive(PartialEq, Eq, Debug, Clone, Copy)]
pub enum Token<'src> {
    LBrace,
    RBrace,
    Symbol(&'src str),
    Quote,
    QuasiQuote,
    Unquote,
    Unpack,
    EOF,
}

/// The mathematical model of a borrowed token.
pub ghost enum SpecTok {
    LBrace,
    RBrace,
    Symbol(Seq<char>),
    Quote,
    QuasiQuote,
    Unquote,
    Unpack,
    EOF,
}

impl<'src> View for Token<'src> {
    type V = SpecTok;

    open spec fn view(&self) -> SpecTok {
        match self {
            Token::LBrace => SpecTok::LBrace,
            Token::RBrace => SpecTok::RBrace,
            Token::Symbol(s) => SpecTok::Symbol(s@),
            Token::Quote => SpecTok::Quote,
            Token::QuasiQuote => SpecTok::QuasiQuote,
            Token::Unquote => SpecTok::Unquote,
            Token::Unpack => SpecTok::Unpack,
            Token::EOF => SpecTok::EOF,
        }
    }
}

/// The scanner's failure: a character outside every token shape.
#[derive(PartialEq, Eq, Debug, Clone, Copy)]
pub struct TokenizerError;

/// Whitespace between tokens: space, tab, newline.
pub open spec fn spec_is_ws(c: char) -> bool {
    c == ' ' || c == '\t' || c == '\n'
}

/// A character that may open a symbol.
pub open spec fn spec_sym_start(c: char) -> bool {
    (97 <= c as u32 && c as u32 <= 122) || (65 <= c as u32 && c as u32 <= 90) || c == ':' || c
        == '_'
}

/// A character that may continue a symbol.
pub open spec fn spec_sym_body(c: char) -> bool {
    (97 <= c as u32 && c as u32 <= 122) || (65 <= c as u32 && c as u32 <= 90) || (48 <= c as u32
        && c as u32 <= 57) || c == '_' || c == '-'
}

/// The first index at or after `i` that does not hold whitespace.
pub open spec fn spec_ws_end(s: Seq<char>, i: nat) -> nat
    decreases s.len() - i,
{
    if i < s.len() && spec_is_ws(s[i as int]) {
        spec_ws_end(s, i + 1)
    } else {
        i
    }
}

/// The first index at or after `i` that does not continue a symbol.
pub open spec fn spec_body_end(s: Seq<char>, i: nat) -> nat
    decreases s.len() - i,
{
    if i < s.len() && spec_sym_body(s[i as int]) {
        spec_body_end(s, i + 1)
    } else {
        i
    }
}

pub proof fn lemma_spec_body_end(s: Seq<char>, i: nat)
    ensures
        i <= spec_body_end(s, i),
        spec_body_end(s, i) <= s.len() || spec_body_end(s, i) == i,
    decreases s.len() - i,
{
    if i < s.len() && spec_sym_body(s[i as int]) {
        lemma_spec_body_end(s, i + 1);
    }
}

/// What one call of `next_token` yields at position `i`: the token and
/// the position after it, or the scanner's error.  At the end of the
/// text the token is `EOF`, however often it is asked for.
pub open spec fn spec_next_tok(s: Seq<char>, i: nat) -> Result<(SpecTok, nat), TokenizerError> {
    let j = spec_ws_end(s, i);
    if j >= s.len() {
        Ok((SpecTok::EOF, j))
    } else {
        let c = s[j as int];
        if c == '(' {
            Ok((SpecTok::LBrace, (j + 1) as nat))
        } else if c == ')' {
            Ok((SpecTok::RBrace, (j + 1) as nat))
        } else if c == '\'' {
            Ok((SpecTok::Quote, (j + 1) as nat))
        } else if c == '`' {
            Ok((SpecTok::QuasiQuote, (j + 1) as nat))
        } else if c == ',' {
            Ok((SpecTok::Unquote, (j + 1) as nat))
        } else if c == '@' {
            Ok((SpecTok::Unpack, (j + 1) as nat))
        } else if spec_sym_start(c) {
            let e = spec_body_end(s, (j + 1) as nat);
            Ok((SpecTok::Symbol(s.subrange(j as int, e as int)), e))
        } else {
            Err(TokenizerError)
        }
    }
}

/// A scanner over borrowed text; `cursor` counts characters.
pub struct Tokenizer<'src> {
    pub input: &'src str,
    pub cursor: usize,
}

/// Whether an optional character continues a symbol.
pub fn is_symbol_body(c: Option<char>) -> (r: bool)
    ensures
        r == match c {
            Some(c) => spec_sym_body(c),
            None => false,
        },
{
    let c = match c {
        Some(c) => c,
        None => {
            return false;
        },
    };
    let u = c as u32;
    (97 <= u && u <= 122) || (65 <= u && u <= 90) || (48 <= u && u <= 57) || c == '_' || c == '-'
}

/// Whether an optional character is whitespace.
pub fn is_whitespace(c: Option<char>) -> (r: bool)
    ensures
        r == match c {
            Some(c) => spec_is_ws(c),
            None => false,
        },
{
    let c = match c {
        Some(c) => c,
        None => {
            return false;
        },
    };
    c == ' ' || c == '\t' || c == '\n'
}

impl<'src> Tokenizer<'src> {
    /// The cursor never leaves the text.
    pub open spec fn wf(&self) -> bool {
        self.cursor <= self.input@.len()
    }

    fn peek_char(&self) -> (r: Option<char>)
        requires
            self.wf(),
        ensures
            r == if self.cursor < self.input@.len() {
                Some(self.input@[self.cursor as int])
            } else {
                None::<char>
            },
    {
        if self.cursor < self.input.unicode_len() {
            Some(self.input.get_char(self.cursor))
        } else {
            None
        }
    }

    fn pop_char(&mut self) -> (r: Option<char>)
        requires
            old(self).wf(),
        ensures
            final(self).input == old(self).input,
            final(self).wf(),
            r == if old(self).cursor < old(self).input@.len() {
                Some(old(self).input@[old(self).cursor as int])
            } else {
                None::<char>
            },
            final(self).cursor == if old(self).cursor < old(self).input@.len() {
                old(self).cursor + 1
            } else {
                old(self).cursor as int
            },
    {
        if self.cursor < self.input.unicode_len() {
            let c = self.input.get_char(self.cursor);
            self.cursor = self.cursor + 1;
            Some(c)
        } else {
            None
        }
    }

    /// Scans one token, skipping whitespace first.
    pub fn next_token(&mut self) -> (r: Result<Token<'src>, TokenizerError>)
        requires
            old(self).wf(),
        ensures
            final(self).input == old(self).input,
            final(self).wf(),
            ({
                let s = old(self).input@;
                let i = old(self).cursor as nat;
                match r {
                    Ok(t) => spec_next_tok(s, i) == Ok::<_, TokenizerError>(
                        (t@, final(self).cursor as nat),
                    ),
                    Err(e) => spec_next_tok(s, i) == Err::<(SpecTok, nat), _>(e),
                }
            }),
    {
        let ghost s = self.input@;
        let ghost i0 = self.cursor as nat;
        #[verifier::loop_isolation(false)]
        loop
            invariant
                self.wf(),
                self.input == old(self).input,
                spec_ws_end(s, self.cursor as nat) == spec_ws_end(s, i0),
            decreases s.len() - self.cursor,
        {
            if is_whitespace(self.peek_char()) {
                self.pop_char();
            } else {
                break ;
            }
        }
        let c = match self.peek_char() {
            Some(c) => c,
            None => {
                return Ok(Token::EOF);
            },
        };
        if c == '(' {
            self.pop_char();
            return Ok(Token::LBrace);
        }
        if c == ')' {
            self.pop_char();
            return Ok(Token::RBrace);
        }
        if c == '\'' {
            self.pop_char();
            return Ok(Token::Quote);
        }
        if c == '`' {
            self.pop_char();
            return Ok(Token::QuasiQuote);
        }
        if c == ',' {
            self.pop_char();
            return Ok(Token::Unquote);
        }
        if c == '@' {
            self.pop_char();
            return Ok(Token::Unpack);
        }
        let u = c as u32;
        if (97 <= u && u <= 122) || (65 <= u && u <= 90) || c == ':' || c == '_' {
            let symbol_start = self.cursor;
            self.pop_char();
            proof {
                lemma_spec_body_end(s, self.cursor as nat);
            }
            #[verifier::loop_isolation(false)]
            loop
                invariant
                    self.wf(),
                    self.input == old(self).input,
                    symbol_start < self.cursor <= s.len(),
                    spec_body_end(s, self.cursor as nat) == spec_body_end(
                        s,
                        (symbol_start + 1) as nat,
                    ),
                decreases s.len() - self.cursor,
            {
                if is_symbol_body(self.peek_char()) {
                    self.pop_char();
                } else {
                    break ;
                }
            }
            return Ok(Token::Symbol(self.input.substring_char(symbol_start, self.cursor)));
        }
        Err(TokenizerError)
    }
}

/// A scanner over the whole of `input`, positioned at its start.
pub fn tokenize<'src>(input: &'src str) -> (r: Tokenizer<'src>)
    ensures
        r.input@ == input@,
        r.cursor == 0,
        r.wf(),
{
    Tokenizer { input, cursor: 0 }
}

} // verus!
