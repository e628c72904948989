//! The reader: builds one expression tree from a token sequence.
//!
//! The contract works through `tokens_of`, the rendering of a form back
//! into tokens: a successful read consumes exactly the rendering of the
//! form it returns, and a read succeeds exactly when some form's
//! rendering starts at the read position.  Rendering is prefix-free
//! (`lemma_form_unique`), so those two clauses pin the result down.

use vstd::prelude::*;

use crate::lexer::{int_literal_val, is_int_literal, spec_tokenize_from, LexError};
use crate::types::{Expression, SpecExpr, SpecToken, Token, view_exprs, view_tokens};

verus! {

broadcast use crate::types::lemma_view_exprs;

/// A reader failure.
#[derive(PartialEq, Eq, Debug, Clone, Copy)]
pub enum ParseError {
    /// A list was opened but the tokens ran out before it was closed.
    UnexpectedEof,
    /// A close paren with no open paren to match it.
    MismatchedCloseParen,
    /// No token to read at all.
    EmptyInput,
}

/// The token rendering of a form.
pub open spec fn tokens_of(e: SpecExpr) -> Seq<SpecToken>
    decreases e, 1int,
{
    match e {
        SpecExpr::List(es) => seq![SpecToken::LBracket] + tokens_of_list(es) + seq![
            SpecToken::RBracket,
        ],
        SpecExpr::Int(i) => seq![SpecToken::Int(i)],
        SpecExpr::Str(s) => seq![SpecToken::Str(s)],
        SpecExpr::Symbol(s) => seq![SpecToken::Symbol(s)],
    }
}

/// The token rendering of a sequence of forms, in order.
pub open spec fn tokens_of_list(es: Seq<SpecExpr>) -> Seq<SpecToken>
    decreases es, 0int,
{
    if es.len() == 0 {
        Seq::empty()
    } else {
        tokens_of(es[0]) + tokens_of_list(es.drop_first())
    }
}

/// Reading at `pos` may yield form `e`, consuming tokens up to `p`.
pub open spec fn valid_parse(ts: Seq<SpecToken>, pos: int, p: int, e: SpecExpr) -> bool {
    0 <= pos <= p <= ts.len() && ts.subrange(pos, p) == tokens_of(e)
}

/// Some complete form starts at `pos`.
pub open spec fn parses_at(ts: Seq<SpecToken>, pos: int) -> bool {
    exists|p: int, e: SpecExpr| valid_parse(ts, pos, p, e)
}

/// A rendering is never empty, never opens with a close paren, and
/// opens with an open paren exactly for a list form.
pub proof fn lemma_tokens_of_first(e: SpecExpr)
    ensures
        tokens_of(e).len() >= 1,
        tokens_of(e)[0] != SpecToken::RBracket,
        tokens_of(e)[0] == SpecToken::LBracket <==> e is List,
{
}

pub proof fn lemma_tokens_of_list_push(es: Seq<SpecExpr>, e: SpecExpr)
    ensures
        tokens_of_list(es.push(e)) == tokens_of_list(es) + tokens_of(e),
    decreases es.len(),
{
    if es.len() == 0 {
        assert(es.push(e)[0] == e);
        assert(es.push(e).drop_first() =~= Seq::<SpecExpr>::empty());
        assert(tokens_of_list(es.push(e)) == tokens_of(e) + tokens_of_list(
            Seq::<SpecExpr>::empty(),
        ));
        assert(tokens_of(e) + Seq::<SpecToken>::empty() =~= tokens_of_list(es) + tokens_of(e));
    } else {
        lemma_tokens_of_list_push(es.drop_first(), e);
        assert(es.push(e).drop_first() =~= es.drop_first().push(e));
        assert(tokens_of(es[0]) + (tokens_of_list(es.drop_first()) + tokens_of(e)) =~= (
        tokens_of(es[0]) + tokens_of_list(es.drop_first())) + tokens_of(e));
    }
}

/// Rendering is prefix-free: if two renderings agree once each is
/// padded by a rest, the forms and the rests agree too.
pub proof fn lemma_form_unique(e1: SpecExpr, e2: SpecExpr, r1: Seq<SpecToken>, r2: Seq<SpecToken>)
    requires
        tokens_of(e1) + r1 == tokens_of(e2) + r2,
    ensures
        e1 == e2,
        r1 == r2,
    decreases e1, 1int,
{
    lemma_tokens_of_first(e1);
    lemma_tokens_of_first(e2);
    assert((tokens_of(e1) + r1)[0] == tokens_of(e1)[0]);
    assert((tokens_of(e2) + r2)[0] == tokens_of(e2)[0]);
    match e1 {
        SpecExpr::List(es1) => {
            let es2 = e2->List_0;
            let m1 = tokens_of_list(es1) + seq![SpecToken::RBracket] + r1;
            let m2 = tokens_of_list(es2) + seq![SpecToken::RBracket] + r2;
            assert(m1 =~= (tokens_of(e1) + r1).drop_first());
            assert(m2 =~= (tokens_of(e2) + r2).drop_first());
            lemma_list_unique(es1, es2, r1, r2);
            assert(e1 =~= e2);
        },
        SpecExpr::Int(_) => {
            assert(r1 =~= (tokens_of(e1) + r1).drop_first());
            assert(r2 =~= (tokens_of(e2) + r2).drop_first());
        },
        SpecExpr::Str(_) => {
            assert(r1 =~= (tokens_of(e1) + r1).drop_first());
            assert(r2 =~= (tokens_of(e2) + r2).drop_first());
        },
        SpecExpr::Symbol(_) => {
            assert(r1 =~= (tokens_of(e1) + r1).drop_first());
            assert(r2 =~= (tokens_of(e2) + r2).drop_first());
        },
    }
}

proof fn lemma_list_unique(
    es1: Seq<SpecExpr>,
    es2: Seq<SpecExpr>,
    r1: Seq<SpecToken>,
    r2: Seq<SpecToken>,
)
    requires
        tokens_of_list(es1) + seq![SpecToken::RBracket] + r1 == tokens_of_list(es2) + seq![
            SpecToken::RBracket,
        ] + r2,
    ensures
        es1 == es2,
        r1 == r2,
    decreases es1, 0int,
{
    let m = tokens_of_list(es1) + seq![SpecToken::RBracket] + r1;
    if es1.len() == 0 {
        assert(m[0] == SpecToken::RBracket);
        if es2.len() > 0 {
            lemma_tokens_of_first(es2[0]);
            assert(m[0] == tokens_of(es2[0])[0]);
            assert(false);
        }
        assert(es1 =~= es2);
        assert(r1 =~= m.drop_first());
        assert(r2 =~= m.drop_first());
    } else {
        if es2.len() == 0 {
            lemma_tokens_of_first(es1[0]);
            assert(m[0] == tokens_of(es1[0])[0]);
            assert(m[0] == SpecToken::RBracket);
            assert(false);
        }
        let t1 = tokens_of_list(es1.drop_first()) + seq![SpecToken::RBracket] + r1;
        let t2 = tokens_of_list(es2.drop_first()) + seq![SpecToken::RBracket] + r2;
        assert(tokens_of(es1[0]) + t1 =~= m);
        assert(tokens_of(es2[0]) + t2 =~= m);
        lemma_form_unique(es1[0], es2[0], t1, t2);
        lemma_list_unique(es1.drop_first(), es2.drop_first(), r1, r2);
        assert(es1 =~= seq![es1[0]] + es1.drop_first());
        assert(es2 =~= seq![es2[0]] + es2.drop_first());
        assert(es1 =~= es2);
    }
}

/// Round trip, reading half: the lone token `Int v` parses, and only
/// to the integer form with that value, consuming that one token.
/// With `lemma_int_literal_tokens` and the contracts of `tokenize` and
/// `read`, reading any in-range integer literal text yields exactly
/// the integer form of its decimal value.
pub proof fn lemma_int_token_reads(v: int)
    ensures
        parses_at(seq![SpecToken::Int(v)], 0),
        forall|p: int, e: SpecExpr|
            valid_parse(seq![SpecToken::Int(v)], 0, p, e) ==> e == SpecExpr::Int(v) && p == 1,
{
    let ts = seq![SpecToken::Int(v)];
    assert(ts.subrange(0, 1) =~= tokens_of(SpecExpr::Int(v)));
    assert(valid_parse(ts, 0, 1, SpecExpr::Int(v)));
    assert forall|p: int, e: SpecExpr| valid_parse(ts, 0, p, e) implies e == SpecExpr::Int(v) && p
        == 1 by {
        lemma_tokens_of_first(e);
        assert(tokens_of(e)[0] == ts.subrange(0, p)[0]);
        assert(tokens_of(e)[0] == ts[0]);
        assert(!(e is List));
        assert(p == 1);
        assert(tokens_of(e) =~= ts.subrange(0, 1));
        assert(tokens_of(e)[0] == SpecToken::Int(v));
    }
}

/// The round trip in one statement: any integer literal text whose
/// value fits a signed 64-bit integer scans to the one token `Int v`,
/// and every read of that token stream yields exactly the integer
/// form with value `v` — so scanning and then reading such text gives
/// `Expression::Int` of its decimal value, leading zeros and all.
pub proof fn lemma_int_literal_round_trip(s: Seq<char>)
    requires
        is_int_literal(s),
        i64::MIN <= int_literal_val(s) <= i64::MAX,
    ensures
        spec_tokenize_from(s, 0) == Ok::<_, LexError>(
            seq![SpecToken::Int(int_literal_val(s))],
        ),
        parses_at(seq![SpecToken::Int(int_literal_val(s))], 0),
        forall|p: int, e: SpecExpr|
            valid_parse(seq![SpecToken::Int(int_literal_val(s))], 0, p, e) ==> e == SpecExpr::Int(
                int_literal_val(s),
            ) && p == 1,
{
    crate::lexer::lemma_int_literal_tokens(s);
    lemma_int_token_reads(int_literal_val(s));
}

/// Bracket balance: a token stream that begins with the rendering of
/// any form parses; every parse of it yields exactly that form and
/// consumes exactly its rendering — the matching span — and the
/// stream never opens with a close paren, so by `read`'s contract a
/// read of it cannot report a mismatched close paren.
pub proof fn lemma_balanced_read(e: SpecExpr, rest: Seq<SpecToken>)
    ensures
        parses_at(tokens_of(e) + rest, 0),
        forall|p: int, e2: SpecExpr|
            valid_parse(tokens_of(e) + rest, 0, p, e2) ==> e2 == e && p == tokens_of(e).len(),
        !((tokens_of(e) + rest)[0] is RBracket),
{
    let ts = tokens_of(e) + rest;
    lemma_tokens_of_first(e);
    assert(ts[0] == tokens_of(e)[0]);
    assert(ts.subrange(0, tokens_of(e).len() as int) =~= tokens_of(e));
    assert(valid_parse(ts, 0, tokens_of(e).len() as int, e));
    assert forall|p: int, e2: SpecExpr| valid_parse(ts, 0, p, e2) implies e2 == e && p == tokens_of(
        e,
    ).len() by {
        assert(tokens_of(e2) + ts.subrange(p, ts.len() as int) =~= ts);
        lemma_form_unique(e2, e, ts.subrange(p, ts.len() as int), rest);
    }
}

/// Part of a list body remains at `q`: some forms and then the close paren.
pub open spec fn list_close_at(ts: Seq<SpecToken>, q: int, es: Seq<SpecExpr>, p: int) -> bool {
    0 <= q <= p <= ts.len() && ts.subrange(q, p) == tokens_of_list(es) + seq![SpecToken::RBracket]
}

/// Opening a list: a parse that starts at an open paren is a list
/// form, whose body and close paren follow.
proof fn lemma_list_open(tv: Seq<SpecToken>, pos: int, p: int, e: SpecExpr)
    requires
        valid_parse(tv, pos, p, e),
        0 <= pos < tv.len(),
        tv[pos] == SpecToken::LBracket,
    ensures
        e is List,
        list_close_at(tv, pos + 1, e->List_0, p),
{
    lemma_tokens_of_first(e);
    assert(tokens_of(e)[0] == tv.subrange(pos, p)[0]);
    let es = e->List_0;
    assert(tv.subrange(pos, p) == seq![SpecToken::LBracket] + (tokens_of_list(es) + seq![
        SpecToken::RBracket,
    ]));
    assert(tv.subrange(pos + 1, p) =~= tv.subrange(pos, p).drop_first());
    assert(tv.subrange(pos + 1, p) =~= tokens_of_list(es) + seq![SpecToken::RBracket]);
}

/// A list body that does not close at `q` continues with a sub-form.
proof fn lemma_list_progress(tv: Seq<SpecToken>, q: int, es: Seq<SpecExpr>, p: int)
    requires
        list_close_at(tv, q, es, p),
        q < tv.len(),
        tv[q] != SpecToken::RBracket,
    ensures
        es.len() > 0,
        valid_parse(tv, q, q + tokens_of(es[0]).len(), es[0]),
{
    assert(tv.subrange(q, p).len() == tokens_of_list(es).len() + 1);
    if es.len() == 0 {
        assert(tv.subrange(q, p)[0] == (tokens_of_list(es) + seq![SpecToken::RBracket])[0]);
        assert(tv.subrange(q, p)[0] == tv[q]);
        assert(false);
    }
    lemma_tokens_of_first(es[0]);
    let n0 = tokens_of(es[0]).len() as int;
    assert(tv.subrange(q, p) == (tokens_of(es[0]) + tokens_of_list(es.drop_first())) + seq![
        SpecToken::RBracket,
    ]);
    assert(tv.subrange(q, p) =~= tokens_of(es[0]) + (tokens_of_list(es.drop_first()) + seq![
        SpecToken::RBracket,
    ]));
    assert(n0 <= p - q);
    assert forall|k: int| 0 <= k < n0 implies tv.subrange(q, q + n0)[k] == tokens_of(es[0])[k] by {
        assert(tv.subrange(q, q + n0)[k] == tv[q + k]);
        assert(tv.subrange(q, p)[k] == tv[q + k]);
        assert(tv.subrange(q, p)[k] == tokens_of(es[0])[k]);
    }
    assert(tv.subrange(q, q + n0) =~= tokens_of(es[0]));
}

/// Whatever sub-form a read finds at `q` is the body's next form, and
/// past it the rest of the body still closes at `p`.
proof fn lemma_list_element(
    tv: Seq<SpecToken>,
    q: int,
    q2: int,
    ev: SpecExpr,
    es: Seq<SpecExpr>,
    p: int,
)
    requires
        list_close_at(tv, q, es, p),
        es.len() > 0,
        valid_parse(tv, q, q2, ev),
    ensures
        ev == es[0],
        q2 == q + tokens_of(es[0]).len(),
        list_close_at(tv, q2, es.drop_first(), p),
{
    let n0 = tokens_of(es[0]).len() as int;
    let suffix1 = tv.subrange(q2, tv.len() as int);
    let suffix2 = tv.subrange(q + n0, tv.len() as int);
    assert(tv.subrange(q, p) == (tokens_of(es[0]) + tokens_of_list(es.drop_first())) + seq![
        SpecToken::RBracket,
    ]);
    assert(tv.subrange(q, p) =~= tokens_of(es[0]) + (tokens_of_list(es.drop_first()) + seq![
        SpecToken::RBracket,
    ]));
    assert(n0 <= p - q);
    assert forall|k: int| 0 <= k < n0 implies tv.subrange(q, q + n0)[k] == tokens_of(es[0])[k] by {
        assert(tv.subrange(q, q + n0)[k] == tv[q + k]);
        assert(tv.subrange(q, p)[k] == tv[q + k]);
    }
    assert(tv.subrange(q, q + n0) =~= tokens_of(es[0]));
    assert(tv.subrange(q, tv.len() as int) =~= tv.subrange(q, q2) + suffix1);
    assert(tv.subrange(q, tv.len() as int) =~= tv.subrange(q, q + n0) + suffix2);
    assert(tokens_of(ev) + suffix1 == tokens_of(es[0]) + suffix2);
    lemma_form_unique(ev, es[0], suffix1, suffix2);
    assert(q2 - q == tokens_of(ev).len());
    assert forall|k: int| 0 <= k < p - q2 implies tv.subrange(q2, p)[k] == (tokens_of_list(
        es.drop_first(),
    ) + seq![SpecToken::RBracket])[k] by {
        assert(tv.subrange(q2, p)[k] == tv[q2 + k]);
        assert(tv.subrange(q, p)[k + n0] == tv[q + k + n0]);
        assert(tv.subrange(q, p) =~= tokens_of(es[0]) + (tokens_of_list(es.drop_first()) + seq![
            SpecToken::RBracket,
        ]));
    }
    assert(tv.subrange(q2, p) =~= tokens_of_list(es.drop_first()) + seq![SpecToken::RBracket]);
}

/// Reads exactly one form starting at `pos`, returning it together with
/// the index just past the tokens it consumed.  A read succeeds exactly
/// when some form's rendering starts at `pos`; on success the consumed
/// tokens are exactly the returned form's rendering; each error says
/// precisely why no form starts there.
pub fn read_from(tokens: &Vec<Token>, pos: usize) -> (r: (Result<Expression, ParseError>, usize))
    ensures
        ({
            let tv = view_tokens(tokens@);
            &&& (r.0 is Ok <==> parses_at(tv, pos as int))
            &&& match r.0 {
                Ok(e) => pos < r.1 <= tv.len() && tv.subrange(pos as int, r.1 as int) == tokens_of(
                    e@,
                ),
                Err(ParseError::EmptyInput) => pos >= tv.len(),
                Err(ParseError::MismatchedCloseParen) => pos < tv.len() && tv[pos as int]
                    is RBracket,
                Err(ParseError::UnexpectedEof) => pos < tv.len() && tv[pos as int] is LBracket,
            }
        }),
    decreases tokens@.len() - pos,
{
    let ghost tv = view_tokens(tokens@);
    if pos >= tokens.len() {
        proof {
            if parses_at(tv, pos as int) {
                let (p, e) = choose|p: int, e: SpecExpr| valid_parse(tv, pos as int, p, e);
                lemma_tokens_of_first(e);
            }
        }
        return (Err(ParseError::EmptyInput), pos);
    }
    match &tokens[pos] {
        Token::LBracket => {
            let mut elements: Vec<Expression> = Vec::new();
            let mut q = pos + 1;
            proof {
                assert(tv.subrange(pos as int + 1, pos as int + 1) =~= tokens_of_list(
                    view_exprs(elements@),
                ));
                if parses_at(tv, pos as int) {
                    let (p, e) = choose|p: int, e: SpecExpr| valid_parse(tv, pos as int, p, e);
                    lemma_list_open(tv, pos as int, p, e);
                }
            }
            #[verifier::loop_isolation(false)]
            loop
                invariant
                    pos + 1 <= q <= tv.len(),
                    tv.subrange(pos as int + 1, q as int) == tokens_of_list(view_exprs(elements@)),
                    parses_at(tv, pos as int) ==> exists|es: Seq<SpecExpr>, p: int|
                        list_close_at(tv, q as int, es, p),
                decreases tv.len() - q,
            {
                let ghost prev = view_exprs(elements@);
                if q >= tokens.len() {
                    proof {
                        if parses_at(tv, pos as int) {
                            let (es, p) = choose|es: Seq<SpecExpr>, p: int|
                                list_close_at(tv, q as int, es, p);
                            assert(tv.subrange(q as int, p).len() == tokens_of_list(es).len() + 1);
                            assert(false);
                        }
                    }
                    return (Err(ParseError::UnexpectedEof), q);
                }
                let is_close = match &tokens[q] {
                    Token::RBracket => true,
                    _ => false,
                };
                if is_close {
                    let ghost es = view_exprs(elements@);
                    proof {
                        assert(tv.subrange(pos as int, q + 1) =~= seq![SpecToken::LBracket]
                            + tokens_of_list(es) + seq![SpecToken::RBracket]);
                        assert(valid_parse(tv, pos as int, q + 1, SpecExpr::List(es)));
                    }
                    let result = Expression::List(elements);
                    return (Ok(result), q + 1);
                }
                // The next token begins a sub-form of the list body.
                proof {
                    if parses_at(tv, pos as int) {
                        let (es, p) = choose|es: Seq<SpecExpr>, p: int|
                            list_close_at(tv, q as int, es, p);
                        lemma_list_progress(tv, q as int, es, p);
                    }
                }
                let (inner, q2) = read_from(tokens, q);
                match inner {
                    Ok(element) => {
                        let ghost ev = element@;
                        proof {
                            lemma_tokens_of_list_push(prev, ev);
                            assert(tv.subrange(pos as int + 1, q2 as int) =~= tv.subrange(
                                pos as int + 1,
                                q as int,
                            ) + tv.subrange(q as int, q2 as int));
                            if parses_at(tv, pos as int) {
                                let (es, p) = choose|es: Seq<SpecExpr>, p: int|
                                    list_close_at(tv, q as int, es, p);
                                lemma_list_progress(tv, q as int, es, p);
                                lemma_list_element(tv, q as int, q2 as int, ev, es, p);
                                assert(list_close_at(tv, q2 as int, es.drop_first(), p));
                            }
                        }
                        elements.push(element);
                        proof {
                            assert(view_exprs(elements@) =~= prev.push(ev));
                        }
                        q = q2;
                    },
                    Err(e) => {
                        proof {
                            if parses_at(tv, pos as int) {
                                let (es, p) = choose|es: Seq<SpecExpr>, p: int|
                                    list_close_at(tv, q as int, es, p);
                                lemma_list_progress(tv, q as int, es, p);
                                assert(parses_at(tv, q as int));
                                assert(false);
                            }
                            match e {
                                ParseError::UnexpectedEof => {},
                                ParseError::MismatchedCloseParen => {
                                    assert(false);
                                },
                                ParseError::EmptyInput => {
                                    assert(false);
                                },
                            }
                        }
                        return (Err(e), q2);
                    },
                }
            }
        },
        Token::RBracket => {
            proof {
                if parses_at(tv, pos as int) {
                    let (p, e) = choose|p: int, e: SpecExpr| valid_parse(tv, pos as int, p, e);
                    lemma_tokens_of_first(e);
                    assert(tokens_of(e)[0] == tv.subrange(pos as int, p)[0]);
                }
            }
            (Err(ParseError::MismatchedCloseParen), pos)
        },
        Token::Int(i) => {
            let ghost e = SpecExpr::Int(*i as int);
            proof {
                assert(tv.subrange(pos as int, pos as int + 1) =~= tokens_of(e));
                assert(valid_parse(tv, pos as int, pos as int + 1, e));
            }
            (Ok(Expression::Int(*i)), pos + 1)
        },
        Token::Str(s) => {
            let text = s.clone();
            let ghost e = SpecExpr::Str(s@);
            proof {
                assert(tv.subrange(pos as int, pos as int + 1) =~= tokens_of(e));
                assert(valid_parse(tv, pos as int, pos as int + 1, e));
            }
            (Ok(Expression::Str(text)), pos + 1)
        },
        Token::Symbol(s) => {
            let text = s.clone();
            let ghost e = SpecExpr::Symbol(s@);
            proof {
                assert(tv.subrange(pos as int, pos as int + 1) =~= tokens_of(e));
                assert(valid_parse(tv, pos as int, pos as int + 1, e));
            }
            (Ok(Expression::Symbol(text)), pos + 1)
        },
    }
}

/// Reads one form from the front of a token sequence; tokens past that
/// form are ignored, so a caller holding several forms may read them
/// one call at a time by slicing.
pub fn read(tokens: Vec<Token>) -> (r: Result<Expression, ParseError>)
    ensures
        ({
            let tv = view_tokens(tokens@);
            &&& (r is Ok <==> parses_at(tv, 0))
            &&& match r {
                Ok(e) => valid_parse(tv, 0, tokens_of(e@).len() as int, e@),
                Err(ParseError::EmptyInput) => tv.len() == 0,
                Err(ParseError::MismatchedCloseParen) => tv.len() > 0 && tv[0] is RBracket,
                Err(ParseError::UnexpectedEof) => tv.len() > 0 && tv[0] is LBracket,
            }
        }),
{
    let (result, _) = read_from(&tokens, 0);
    result
}

} // verus!

