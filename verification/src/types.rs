//! Syntactic data: the tokens that the lexer emits and the expression
//! trees that the reader builds, together with their mathematical models.

use vstd::prelude::*;

verus! {

/// A lexical token of the surface language.
#[derive(PartialEq, Eq, Debug)]
pub enum Token {
    LBracket,
    RBracket,
    Symbol(String),
    Int(i64),
    Str(String),
}

/// The mathematical model of a token: text becomes a sequence of
/// characters, a machine integer becomes an unbounded integer.
pub ghost enum SpecToken {
    LBracket,
    RBracket,
    Symbol(Seq<char>),
    Int(int),
    Str(Seq<char>),
}

impl View for Token {
    type V = SpecToken;

    open spec fn view(&self) -> SpecToken {
        match self {
            Token::LBracket => SpecToken::LBracket,
            Token::RBracket => SpecToken::RBracket,
            Token::Symbol(s) => SpecToken::Symbol(s@),
            Token::Int(i) => SpecToken::Int(*i as int),
            Token::Str(s) => SpecToken::Str(s@),
        }
    }
}

/// The model of a token sequence.
pub open spec fn view_tokens(ts: Seq<Token>) -> Seq<SpecToken> {
    Seq::new(ts.len(), |i: int| ts[i]@)
}

/// A parsed form: either an atom or a parenthesized list of sub-forms.
/// Expression trees are immutable; evaluation reads them and never
/// changes them.
#[derive(PartialEq, Debug)]
pub enum Expression {
    List(Vec<Expression>),
    Int(i64),
    Str(String),
    Symbol(String),
}

/// The mathematical model of an expression tree.
pub ghost enum SpecExpr {
    List(Seq<SpecExpr>),
    Int(int),
    Str(Seq<char>),
    Symbol(Seq<char>),
}

/// The model of one expression tree.
pub open spec fn view_expr(e: Expression) -> SpecExpr
    decreases e, 1int,
{
    match e {
        Expression::List(es) => SpecExpr::List(view_exprs(es@)),
        Expression::Int(i) => SpecExpr::Int(i as int),
        Expression::Str(s) => SpecExpr::Str(s@),
        Expression::Symbol(s) => SpecExpr::Symbol(s@),
    }
}

/// The model of an expression sequence.
pub open spec fn view_exprs(es: Seq<Expression>) -> Seq<SpecExpr>
    decreases es, 0int,
{
    if es.len() == 0 {
        Seq::empty()
    } else {
        seq![view_expr(es[0])] + view_exprs(es.drop_first())
    }
}

impl View for Expression {
    type V = SpecExpr;

    open spec fn view(&self) -> SpecExpr {
        view_expr(*self)
    }
}

/// Pointwise characterization of `view_exprs`: it models each element.
pub broadcast proof fn lemma_view_exprs(es: Seq<Expression>)
    ensures
        (#[trigger] view_exprs(es)).len() == es.len(),
        forall|i: int| 0 <= i < es.len() ==> view_exprs(es)[i] == es[i]@,
    decreases es.len(),
{
    if es.len() > 0 {
        lemma_view_exprs(es.drop_first());
        assert forall|i: int| 0 <= i < es.len() implies view_exprs(es)[i] == es[i]@ by {
            if i > 0 {
                assert(view_exprs(es)[i] == view_exprs(es.drop_first())[i - 1]);
                assert(es.drop_first()[i - 1] == es[i]);
            }
        }
    }
}

impl Expression {
    /// The sub-forms of a list form; the callers own the proof that the
    /// expression is indeed a list.
    pub fn expect_list(&self) -> (r: &Vec<Expression>)
        requires
            self@ is List,
        ensures
            view_exprs(r@) == self@->List_0,
    {
        match self {
            Expression::List(v) => v,
            _ => unreached(),
        }
    }

    /// The value of an integer atom.
    pub fn expect_int(&self) -> (r: i64)
        requires
            self@ is Int,
        ensures
            r as int == self@->Int_0,
    {
        match self {
            Expression::Int(i) => *i,
            _ => unreached(),
        }
    }

    /// The text of a string atom.
    pub fn expect_str(&self) -> (r: &str)
        requires
            self@ is Str,
        ensures
            r@ == self@->Str_0,
    {
        match self {
            Expression::Str(s) => s.as_str(),
            _ => unreached(),
        }
    }

    /// The name of a symbol atom.
    pub fn expect_symbol(&self) -> (r: &str)
        requires
            self@ is Symbol,
        ensures
            r@ == self@->Symbol_0,
    {
        match self {
            Expression::Symbol(s) => s.as_str(),
            _ => unreached(),
        }
    }
}

} // verus!
