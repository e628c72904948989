//! The lexer: turns source text into a sequence of tokens.
//!
//! The executable scanner walks the text one Unicode scalar value at a
//! time.  Its contract ties every step to a mathematical scanner over
//! the text's character sequence: `spec_tokenize_from` says exactly
//! which token list (or which lexical error) a given text denotes.

use vstd::prelude::*;

use crate::types::{SpecToken, Token, view_tokens};

verus! {

/// A lexical failure.
#[derive(PartialEq, Eq, Debug, Clone, Copy)]
pub enum LexError {
    /// A character that starts no recognized token shape.
    UnscannableChar,
    /// A numeric literal that does not fit a signed 64-bit integer.
    NumberOverflow,
    /// A string literal opened but never closed.
    UnterminatedString,
    /// Character literals are a reserved token shape, not yet scanned.
    CharNotSupported,
}

/// Whitespace between tokens: space and newline.
pub open spec fn is_ws_char(c: char) -> bool {
    c == ' ' || c == '\n'
}

/// A decimal digit.
pub open spec fn is_digit_char(c: char) -> bool {
    48 <= c as u32 && c as u32 <= 57
}

/// The numeric value of a decimal digit.
pub open spec fn digit_val(c: char) -> int {
    c as u32 - 48
}

/// A character that may stand in a symbol: the minimal grammar allows
/// lowercase letters and the operator characters `+`, `-`, `*`.
pub open spec fn is_symbol_char(c: char) -> bool {
    (97 <= c as u32 && c as u32 <= 122) || c == '+' || c == '-' || c == '*'
}

/// The first index at or after `i` that does not hold whitespace.
pub open spec fn ws_end(s: Seq<char>, i: nat) -> nat
    decreases s.len() - i,
{
    if i < s.len() && is_ws_char(s[i as int]) {
        ws_end(s, i + 1)
    } else {
        i
    }
}

/// The first index at or after `i` that does not hold a digit.
pub open spec fn digits_end(s: Seq<char>, i: nat) -> nat
    decreases s.len() - i,
{
    if i < s.len() && is_digit_char(s[i as int]) {
        digits_end(s, i + 1)
    } else {
        i
    }
}

/// The first index at or after `i` that does not hold a symbol character.
pub open spec fn sym_end(s: Seq<char>, i: nat) -> nat
    decreases s.len() - i,
{
    if i < s.len() && is_symbol_char(s[i as int]) {
        sym_end(s, i + 1)
    } else {
        i
    }
}

/// The first index at or after `i` that holds a double quote.
pub open spec fn str_end(s: Seq<char>, i: nat) -> nat
    decreases s.len() - i,
{
    if i < s.len() && s[i as int] != '"' {
        str_end(s, i + 1)
    } else {
        i
    }
}

pub proof fn lemma_ws_end(s: Seq<char>, i: nat)
    ensures
        i <= ws_end(s, i),
        ws_end(s, i) <= s.len() || ws_end(s, i) == i,
        forall|k: int| i <= k < ws_end(s, i) ==> is_ws_char(s[k]),
        ws_end(s, i) < s.len() ==> !is_ws_char(s[ws_end(s, i) as int]),
    decreases s.len() - i,
{
    if i < s.len() && is_ws_char(s[i as int]) {
        lemma_ws_end(s, i + 1);
    }
}

pub proof fn lemma_digits_end(s: Seq<char>, i: nat)
    ensures
        i <= digits_end(s, i),
        digits_end(s, i) <= s.len() || digits_end(s, i) == i,
        forall|k: int| i <= k < digits_end(s, i) ==> is_digit_char(s[k]),
        digits_end(s, i) < s.len() ==> !is_digit_char(s[digits_end(s, i) as int]),
        i < s.len() && is_digit_char(s[i as int]) ==> digits_end(s, i) > i,
    decreases s.len() - i,
{
    if i < s.len() && is_digit_char(s[i as int]) {
        lemma_digits_end(s, i + 1);
    }
}

pub proof fn lemma_sym_end(s: Seq<char>, i: nat)
    ensures
        i <= sym_end(s, i),
        sym_end(s, i) <= s.len() || sym_end(s, i) == i,
        forall|k: int| i <= k < sym_end(s, i) ==> is_symbol_char(s[k]),
        sym_end(s, i) < s.len() ==> !is_symbol_char(s[sym_end(s, i) as int]),
        i < s.len() && is_symbol_char(s[i as int]) ==> sym_end(s, i) > i,
    decreases s.len() - i,
{
    if i < s.len() && is_symbol_char(s[i as int]) {
        lemma_sym_end(s, i + 1);
    }
}

pub proof fn lemma_str_end(s: Seq<char>, i: nat)
    ensures
        i <= str_end(s, i),
        str_end(s, i) <= s.len() || str_end(s, i) == i,
        forall|k: int| i <= k < str_end(s, i) ==> s[k] != '"',
        str_end(s, i) < s.len() ==> s[str_end(s, i) as int] == '"',
    decreases s.len() - i,
{
    if i < s.len() && s[i as int] != '"' {
        lemma_str_end(s, i + 1);
    }
}

/// The value of a digit string, most significant digit first.
pub open spec fn digits_val(s: Seq<char>) -> int
    decreases s.len(),
{
    if s.len() == 0 {
        0
    } else {
        10 * digits_val(s.drop_last()) + digit_val(s.last())
    }
}

pub proof fn lemma_digits_val_nonneg(s: Seq<char>)
    requires
        forall|k: int| 0 <= k < s.len() ==> is_digit_char(s[k]),
    ensures
        digits_val(s) >= 0,
    decreases s.len(),
{
    if s.len() > 0 {
        lemma_digits_val_nonneg(s.drop_last());
    }
}

/// Extending a digit string never shrinks its value.
pub proof fn lemma_digits_val_prefix(s: Seq<char>, k: int)
    requires
        forall|j: int| 0 <= j < s.len() ==> is_digit_char(s[j]),
        0 <= k <= s.len(),
    ensures
        digits_val(s.subrange(0, k)) <= digits_val(s),
    decreases s.len() - k,
{
    if k == s.len() {
        assert(s.subrange(0, k) =~= s);
    } else {
        lemma_digits_val_prefix(s, k + 1);
        let p = s.subrange(0, k + 1);
        assert(p.drop_last() =~= s.subrange(0, k));
        lemma_digits_val_nonneg(s.subrange(0, k));
        assert(digits_val(s.subrange(0, k)) <= digits_val(p));
    }
}

/// What one token, scanned at a non-whitespace position `j`, is: the
/// token together with the index just past it, or the lexical error.
pub open spec fn spec_token_at(s: Seq<char>, j: nat) -> Result<(SpecToken, nat), LexError>
    recommends
        j < s.len(),
{
    let c = s[j as int];
    if c == '(' {
        Ok((SpecToken::LBracket, (j + 1) as nat))
    } else if c == ')' {
        Ok((SpecToken::RBracket, (j + 1) as nat))
    } else if is_digit_char(c) || (c == '-' && j + 1 < s.len() && is_digit_char(
        s[j as int + 1],
    )) {
        let dstart = if c == '-' {
            (j + 1) as nat
        } else {
            j
        };
        let dend = digits_end(s, dstart);
        let m = digits_val(s.subrange(dstart as int, dend as int));
        let v = if c == '-' {
            -m
        } else {
            m
        };
        if v < i64::MIN || v > i64::MAX {
            Err(LexError::NumberOverflow)
        } else {
            Ok((SpecToken::Int(v), dend))
        }
    } else if c == '"' {
        let e = str_end(s, (j + 1) as nat);
        if e >= s.len() {
            Err(LexError::UnterminatedString)
        } else {
            Ok((SpecToken::Str(s.subrange(j as int + 1, e as int)), (e + 1) as nat))
        }
    } else if c == '\'' {
        Err(LexError::CharNotSupported)
    } else if is_symbol_char(c) {
        Ok((SpecToken::Symbol(s.subrange(j as int, sym_end(s, j) as int)), sym_end(s, j)))
    } else {
        Err(LexError::UnscannableChar)
    }
}

/// A scanned token always ends past where it began, and within the text.
pub proof fn lemma_token_at_bounds(s: Seq<char>, j: nat)
    requires
        j < s.len(),
    ensures
        spec_token_at(s, j) matches Ok(p) ==> j < p.1 <= s.len(),
{
    lemma_digits_end(s, j);
    lemma_digits_end(s, j + 1);
    lemma_str_end(s, j + 1);
    lemma_sym_end(s, j);
}

/// The token sequence that the text denotes from position `i` on, or
/// the first lexical error.
pub open spec fn spec_tokenize_from(s: Seq<char>, i: nat) -> Result<Seq<SpecToken>, LexError>
    decreases s.len() - i,
    when i <= s.len()
    via spec_tokenize_from_dec
{
    let j = ws_end(s, i);
    if j >= s.len() {
        Ok(Seq::empty())
    } else {
        match spec_token_at(s, j) {
            Ok((t, k)) => match spec_tokenize_from(s, k) {
                Ok(rest) => Ok(seq![t] + rest),
                Err(e) => Err(e),
            },
            Err(e) => Err(e),
        }
    }
}

/// The shape of an integer literal: an optional leading minus, then
/// one or more decimal digits and nothing else.
pub open spec fn is_int_literal(s: Seq<char>) -> bool {
    if s.len() > 0 && s[0] == '-' {
        s.len() > 1 && forall|k: int| 1 <= k < s.len() ==> is_digit_char(s[k])
    } else {
        s.len() > 0 && forall|k: int| 0 <= k < s.len() ==> is_digit_char(s[k])
    }
}

/// The value of an integer literal.  Leading zeros carry no weight,
/// because the value is a number, not a spelling.
pub open spec fn int_literal_val(s: Seq<char>) -> int {
    if s.len() > 0 && s[0] == '-' {
        -digits_val(s.subrange(1, s.len() as int))
    } else {
        digits_val(s)
    }
}

/// Digits all the way to the end scan all the way to the end.
pub proof fn lemma_digits_end_all(s: Seq<char>, i: nat)
    requires
        i <= s.len(),
        forall|k: int| i <= k < s.len() ==> is_digit_char(s[k]),
    ensures
        digits_end(s, i) == s.len(),
    decreases s.len() - i,
{
    if i < s.len() {
        lemma_digits_end_all(s, i + 1);
    }
}

/// Round trip, scanning half: any integer literal within the signed
/// 64-bit range scans to exactly one `Int` token carrying its decimal
/// value, `"007"` no differently from `"7"`.
pub proof fn lemma_int_literal_tokens(s: Seq<char>)
    requires
        is_int_literal(s),
        i64::MIN <= int_literal_val(s) <= i64::MAX,
    ensures
        spec_tokenize_from(s, 0) == Ok::<_, LexError>(seq![SpecToken::Int(int_literal_val(s))]),
{
    assert(!is_ws_char(s[0]));
    assert(ws_end(s, 0) == 0);
    let neg = s[0] == '-';
    let dstart: nat = if neg {
        1
    } else {
        0
    };
    lemma_digits_end_all(s, dstart);
    let digits = s.subrange(dstart as int, s.len() as int);
    if !neg {
        assert(digits =~= s);
    }
    assert(spec_token_at(s, 0) == Ok::<_, LexError>(
        (SpecToken::Int(int_literal_val(s)), s.len() as nat),
    ));
    assert(ws_end(s, s.len() as nat) == s.len());
    assert(spec_tokenize_from(s, s.len() as nat) == Ok::<_, LexError>(Seq::<SpecToken>::empty()));
    assert(seq![SpecToken::Int(int_literal_val(s))] + Seq::<SpecToken>::empty() =~= seq![
        SpecToken::Int(int_literal_val(s)),
    ]);
}

#[via_fn]
proof fn spec_tokenize_from_dec(s: Seq<char>, i: nat) {
    lemma_ws_end(s, i);
    let j = ws_end(s, i);
    if j < s.len() {
        lemma_token_at_bounds(s, j);
    }
}

/// A scanner over borrowed source text.  `cursor` counts characters,
/// not bytes, so it always sits on a scalar-value boundary.
pub struct Lexer<'a> {
    pub input: &'a str,
    pub cursor: usize,
}

impl<'a> Lexer<'a> {
    /// The cursor never leaves the text.
    pub open spec fn wf(&self) -> bool {
        self.cursor <= self.input@.len()
    }

    pub fn new(input: &'a str) -> (r: Lexer<'a>)
        ensures
            r.input@ == input@,
            r.cursor == 0,
            r.wf(),
    {
        Lexer { input, cursor: 0 }
    }

    fn peek_char(&self) -> (r: Option<char>)
        requires
            self.wf(),
        ensures
            r == if self.cursor < self.input@.len() {
                Some(self.input@[self.cursor as int])
            } else {
                None::<char>
            },
    {
        if self.cursor < self.input.unicode_len() {
            Some(self.input.get_char(self.cursor))
        } else {
            None
        }
    }

    /// The character after the cursor, if any: one token of lookahead
    /// for telling a negative number from a symbol that starts with `-`.
    fn peek_char2(&self) -> (r: Option<char>)
        requires
            self.wf(),
        ensures
            r == if self.cursor + 1 < self.input@.len() {
                Some(self.input@[self.cursor as int + 1])
            } else {
                None::<char>
            },
    {
        let n = self.input.unicode_len();
        if self.cursor < n && self.cursor + 1 < n {
            Some(self.input.get_char(self.cursor + 1))
        } else {
            None
        }
    }

    fn pop_char(&mut self)
        requires
            old(self).wf(),
        ensures
            final(self).input@ == old(self).input@,
            final(self).cursor == if old(self).cursor < old(self).input@.len() {
                old(self).cursor + 1
            } else {
                old(self).cursor as int
            },
            final(self).wf(),
    {
        if self.cursor < self.input.unicode_len() {
            self.cursor = self.cursor + 1;
        }
    }

    fn consume_whitespace(&mut self)
        requires
            old(self).wf(),
        ensures
            final(self).input@ == old(self).input@,
            final(self).cursor == ws_end(old(self).input@, old(self).cursor as nat),
            final(self).wf(),
    {
        let ghost s = self.input@;
        let ghost i0 = self.cursor as nat;
        #[verifier::loop_isolation(false)]
        loop
            invariant
                self.wf(),
                self.input@ == s,
                ws_end(s, self.cursor as nat) == ws_end(s, i0),
            decreases s.len() - self.cursor,
        {
            match self.peek_char() {
                Some(c) => {
                    if (c == ' ') || (c == '\n') {
                        self.pop_char();
                    } else {
                        return ;
                    }
                },
                None => {
                    return ;
                },
            }
        }
    }

    /// Scans a number: an optional leading `-`, then one or more digits,
    /// taken greedily.  Leading zeros carry no weight; text whose value
    /// does not fit a signed 64-bit integer is a lexical error.
    fn scan_number(&mut self) -> (r: Result<Token, LexError>)
        requires
            old(self).wf(),
            old(self).cursor < old(self).input@.len(),
            ({
                let s = old(self).input@;
                let j = old(self).cursor as int;
                is_digit_char(s[j]) || (s[j] == '-' && j + 1 < s.len() && is_digit_char(s[j + 1]))
            }),
        ensures
            final(self).input@ == old(self).input@,
            final(self).wf(),
            ({
                let s = old(self).input@;
                let j = old(self).cursor as nat;
                match r {
                    Ok(t) => spec_token_at(s, j) == Ok::<_, LexError>((t@, final(self).cursor as nat)),
                    Err(e) => spec_token_at(s, j) == Err::<(SpecToken, nat), _>(e),
                }
            }),
    {
        let ghost s = self.input@;
        let ghost j = self.cursor as nat;
        let neg = match self.peek_char() {
            Some('-') => {
                self.pop_char();
                true
            },
            _ => false,
        };
        let dstart = self.cursor;
        proof {
            lemma_digits_end(s, dstart as nat);
        }
        // First find where the digits end.
        #[verifier::loop_isolation(false)]
        loop
            invariant
                self.wf(),
                self.input@ == s,
                dstart <= self.cursor <= s.len(),
                digits_end(s, self.cursor as nat) == digits_end(s, dstart as nat),
            decreases s.len() - self.cursor,
        {
            match self.peek_char() {
                Some(c) => {
                    if ('0' as u32 <= c as u32) && (c as u32 <= '9' as u32) {
                        self.pop_char();
                    } else {
                        break ;
                    }
                },
                None => {
                    break ;
                },
            }
        }
        let dend = self.cursor;
        proof {
            assert(dend as nat == digits_end(s, dstart as nat));
        }
        let ghost digits = s.subrange(dstart as int, dend as int);
        // Then accumulate the magnitude, watching for overflow.
        let mut m: u64 = 0;
        let mut k = dstart;
        proof {
            assert(digits.subrange(0, 0) =~= Seq::<char>::empty());
            lemma_digits_val_nonneg(digits);
        }
        #[verifier::loop_isolation(false)]
        while k < dend
            invariant
                self.wf(),
                self.input@ == s,
                dstart <= k <= dend,
                dend == digits_end(s, dstart as nat) <= s.len(),
                digits == s.subrange(dstart as int, dend as int),
                forall|t: int| 0 <= t < digits.len() ==> is_digit_char(digits[t]),
                m as int == digits_val(digits.subrange(0, k - dstart)),
            decreases dend - k,
        {
            let c = self.input.get_char(k);
            proof {
                assert(digits[k - dstart] == c);
                assert(is_digit_char(c));
            }
            let d = (c as u32 - 48) as u64;
            proof {
                let p = digits.subrange(0, k + 1 - dstart);
                assert(p.drop_last() =~= digits.subrange(0, k - dstart));
                assert(p.last() == c);
                assert(digits_val(p) == 10 * m + d);
                lemma_digits_val_prefix(digits, k + 1 - dstart);
            }
            if m > (u64::MAX - d) / 10 {
                proof {
                    assert(10 * m + d > u64::MAX);
                    assert(digits_val(digits) > i64::MAX);
                }
                return Err(LexError::NumberOverflow);
            }
            m = m * 10 + d;
            k = k + 1;
        }
        proof {
            assert(digits.subrange(0, dend - dstart) =~= digits);
            assert(m as int == digits_val(digits));
        }
        if neg {
            if m > 9223372036854775808u64 {
                return Err(LexError::NumberOverflow);
            }
            if m == 9223372036854775808u64 {
                return Ok(Token::Int(i64::MIN));
            }
            Ok(Token::Int(-(m as i64)))
        } else {
            if m > 9223372036854775807u64 {
                return Err(LexError::NumberOverflow);
            }
            Ok(Token::Int(m as i64))
        }
    }

    /// Scans a string literal: everything up to the next double quote,
    /// with no escape processing.  A missing closing quote is an error.
    fn scan_string(&mut self) -> (r: Result<Token, LexError>)
        requires
            old(self).wf(),
            old(self).cursor < old(self).input@.len(),
            old(self).input@[old(self).cursor as int] == '"',
        ensures
            final(self).input@ == old(self).input@,
            final(self).wf(),
            ({
                let s = old(self).input@;
                let j = old(self).cursor as nat;
                match r {
                    Ok(t) => spec_token_at(s, j) == Ok::<_, LexError>((t@, final(self).cursor as nat)),
                    Err(e) => spec_token_at(s, j) == Err::<(SpecToken, nat), _>(e),
                }
            }),
    {
        let ghost s = self.input@;
        let ghost j = self.cursor as nat;
        self.pop_char();
        let start = self.cursor;
        proof {
            lemma_str_end(s, start as nat);
        }
        #[verifier::loop_isolation(false)]
        loop
            invariant
                self.wf(),
                self.input@ == s,
                start <= self.cursor <= s.len(),
                str_end(s, self.cursor as nat) == str_end(s, start as nat),
            decreases s.len() - self.cursor,
        {
            match self.peek_char() {
                Some(c) => {
                    if c == '"' {
                        break ;
                    }
                    self.pop_char();
                },
                None => {
                    return Err(LexError::UnterminatedString);
                },
            }
        }
        let text = self.input.substring_char(start, self.cursor);
        self.pop_char();
        Ok(Token::Str(text.to_owned()))
    }

    /// Character literals are a reserved token shape; scanning one is
    /// reported as unsupported rather than misread.
    fn scan_char(&mut self) -> (r: Result<Token, LexError>)
        requires
            old(self).wf(),
            old(self).cursor < old(self).input@.len(),
            old(self).input@[old(self).cursor as int] == '\'',
        ensures
            final(self).input@ == old(self).input@,
            final(self).wf(),
            r == Err::<Token, _>(LexError::CharNotSupported),
            spec_token_at(old(self).input@, old(self).cursor as nat) == Err::<(
                SpecToken,
                nat,
            ), _>(LexError::CharNotSupported),
    {
        Err(LexError::CharNotSupported)
    }

    /// Scans a symbol greedily over the symbol character class.
    fn scan_symbol(&mut self) -> (r: Result<Token, LexError>)
        requires
            old(self).wf(),
            old(self).cursor < old(self).input@.len(),
            is_symbol_char(old(self).input@[old(self).cursor as int]),
            ({
                let s = old(self).input@;
                let j = old(self).cursor as int;
                !(is_digit_char(s[j]) || (s[j] == '-' && j + 1 < s.len() && is_digit_char(
                    s[j + 1],
                ))) && s[j] != '(' && s[j] != ')' && s[j] != '"' && s[j] != '\''
            }),
        ensures
            final(self).input@ == old(self).input@,
            final(self).wf(),
            ({
                let s = old(self).input@;
                let j = old(self).cursor as nat;
                match r {
                    Ok(t) => spec_token_at(s, j) == Ok::<_, LexError>((t@, final(self).cursor as nat)),
                    Err(e) => spec_token_at(s, j) == Err::<(SpecToken, nat), _>(e),
                }
            }),
    {
        let ghost s = self.input@;
        let start = self.cursor;
        proof {
            lemma_sym_end(s, start as nat);
        }
        #[verifier::loop_isolation(false)]
        loop
            invariant
                self.wf(),
                self.input@ == s,
                start <= self.cursor <= s.len(),
                sym_end(s, self.cursor as nat) == sym_end(s, start as nat),
            decreases s.len() - self.cursor,
        {
            match self.peek_char() {
                Some(c) => {
                    let u = c as u32;
                    if (97 <= u && u <= 122) || c == '+' || c == '-' || c == '*' {
                        self.pop_char();
                    } else {
                        break ;
                    }
                },
                None => {
                    break ;
                },
            }
        }
        let text = self.input.substring_char(start, self.cursor);
        Ok(Token::Symbol(text.to_owned()))
    }

    /// Scans one token, after skipping whitespace; `None` when the text
    /// is exhausted.
    pub fn next_token(&mut self) -> (r: Option<Result<Token, LexError>>)
        requires
            old(self).wf(),
        ensures
            final(self).input@ == old(self).input@,
            final(self).wf(),
            ({
                let s = old(self).input@;
                let j = ws_end(s, old(self).cursor as nat);
                match r {
                    None => j >= s.len(),
                    Some(Ok(t)) => j < s.len() && spec_token_at(s, j) == Ok::<_, LexError>(
                        (t@, final(self).cursor as nat),
                    ),
                    Some(Err(e)) => j < s.len() && spec_token_at(s, j) == Err::<(
                        SpecToken,
                        nat,
                    ), _>(e),
                }
            }),
    {
        self.consume_whitespace();
        let ghost s = self.input@;
        let ghost j = self.cursor as nat;
        match self.peek_char() {
            Some(ch) => Some(
                {
                    if ch == '(' {
                        self.pop_char();
                        Ok(Token::LBracket)
                    } else if ch == ')' {
                        self.pop_char();
                        Ok(Token::RBracket)
                    } else if ('0' as u32 <= ch as u32) && (ch as u32 <= '9' as u32) {
                        self.scan_number()
                    } else if ch == '-' {
                        let digit_follows = match self.peek_char2() {
                            Some(c2) => ('0' as u32 <= c2 as u32) && (c2 as u32 <= '9' as u32),
                            None => false,
                        };
                        if digit_follows {
                            self.scan_number()
                        } else {
                            self.scan_symbol()
                        }
                    } else if ch == '"' {
                        self.scan_string()
                    } else if ch == '\'' {
                        self.scan_char()
                    } else {
                        let u = ch as u32;
                        if (97 <= u && u <= 122) || ch == '+' || ch == '*' {
                            self.scan_symbol()
                        } else {
                            Err(LexError::UnscannableChar)
                        }
                    }
                },
            ),
            None => None,
        }
    }
}

/// Scans the whole text.  The result is exactly the token list that the
/// text denotes, or the first lexical error in it.
pub fn tokenize(chars: &str) -> (r: Result<Vec<Token>, LexError>)
    ensures
        match r {
            Ok(ts) => spec_tokenize_from(chars@, 0) == Ok::<_, LexError>(view_tokens(ts@)),
            Err(e) => spec_tokenize_from(chars@, 0) == Err::<Seq<SpecToken>, _>(e),
        },
{
    let ghost s = chars@;
    let mut tokens: Vec<Token> = Vec::new();
    let mut lexer = Lexer::new(chars);
    proof {
        assert(view_tokens(tokens@) =~= Seq::<SpecToken>::empty());
    }
    #[verifier::loop_isolation(false)]
    loop
        invariant
            lexer.wf(),
            lexer.input@ == s,
            match spec_tokenize_from(s, lexer.cursor as nat) {
                Ok(rest) => spec_tokenize_from(s, 0) == Ok::<_, LexError>(
                    view_tokens(tokens@) + rest,
                ),
                Err(e) => spec_tokenize_from(s, 0) == Err::<Seq<SpecToken>, _>(e),
            },
        decreases s.len() - lexer.cursor,
    {
        let ghost cur = lexer.cursor as nat;
        match lexer.next_token() {
            Some(result) => {
                proof {
                    lemma_ws_end(s, cur);
                    if ws_end(s, cur) < s.len() {
                        lemma_token_at_bounds(s, ws_end(s, cur));
                    }
                }
                match result {
                    Ok(token) => {
                        let ghost tv = token@;
                        let ghost prev = tokens@;
                        tokens.push(token);
                        proof {
                            assert(view_tokens(tokens@) =~= view_tokens(prev) + seq![tv]);
                            match spec_tokenize_from(s, lexer.cursor as nat) {
                                Ok(rest) => {
                                    assert(spec_tokenize_from(s, cur) == Ok::<_, LexError>(
                                        seq![tv] + rest,
                                    ));
                                    assert(view_tokens(prev) + (seq![tv] + rest) =~= view_tokens(
                                        tokens@,
                                    ) + rest);
                                },
                                Err(_) => {},
                            }
                        }
                    },
                    Err(e) => {
                        return Err(e);
                    },
                }
            },
            None => {
                proof {
                    assert(spec_tokenize_from(s, cur) == Ok::<_, LexError>(
                        Seq::<SpecToken>::empty(),
                    ));
                    assert(view_tokens(tokens@) + Seq::<SpecToken>::empty() =~= view_tokens(
                        tokens@,
                    ));
                }
                return Ok(tokens);
            },
        }
    }
}

} // verus!

