//! A small interpreter for a parenthesized symbolic-expression language.
//!
//! Source text flows through three stages: the lexer turns text into
//! tokens, the reader turns tokens into one expression tree per call,
//! and the evaluator walks a tree against a chain of lexical scopes to
//! produce a runtime value.  Each stage carries a contract that ties the
//! executable code to a mathematical model of the same stage; the
//! evaluator's model is `spec_eval`.

use vstd::prelude::*;
use vstd::string::StringExecFns;

pub mod lexer;
pub mod parse;
pub mod parser;
pub mod types;

use crate::types::{Expression, SpecExpr};

verus! {

/// An evaluation failure.
#[derive(PartialEq, Eq, Debug, Clone, Copy)]
pub enum EvalError {
    /// A symbol with no binding anywhere in the scope chain.
    UnboundName,
    /// A special form used with the wrong shape of sub-expressions.
    InvalidForm,
    /// A closure or builtin called with the wrong number of arguments.
    ArityError,
    /// An operand of the wrong runtime kind.
    TypeError,
    /// An application whose head value is not a closure.
    NotCallable,
    /// An arithmetic result outside the signed 64-bit range.
    Overflow,
    /// The evaluation depth budget ran out; stands in for the host's
    /// call-stack exhaustion, which a verified function may not reach.
    DepthLimit,
}

/// A runtime value.  Values are structural data: lists and strings are
/// owned outright, and a closure names the scope it captured by its
/// index in the `Environment` that created it.
#[derive(PartialEq, Debug)]
pub enum Value {
    Int(i64),
    Str(String),
    List(Vec<Value>),
    Closure { env: usize, params: Vec<String>, body: Expression },
}

/// The mathematical model of a runtime value.
pub ghost enum SpecVal {
    Int(int),
    Str(Seq<char>),
    List(Seq<SpecVal>),
    Closure { env: nat, params: Seq<Seq<char>>, body: SpecExpr },
}

/// The model of a sequence of parameter names.
pub open spec fn view_strs(ps: Seq<String>) -> Seq<Seq<char>> {
    Seq::new(ps.len(), |i: int| ps[i]@)
}

/// The model of one runtime value.
pub open spec fn view_val(v: Value) -> SpecVal
    decreases v, 1int,
{
    match v {
        Value::Int(i) => SpecVal::Int(i as int),
        Value::Str(s) => SpecVal::Str(s@),
        Value::List(vs) => SpecVal::List(view_vals(vs@)),
        Value::Closure { env, params, body } => SpecVal::Closure {
            env: env as nat,
            params: view_strs(params@),
            body: body@,
        },
    }
}

/// The model of a sequence of runtime values.
pub open spec fn view_vals(vs: Seq<Value>) -> Seq<SpecVal>
    decreases vs, 0int,
{
    if vs.len() == 0 {
        Seq::empty()
    } else {
        seq![view_val(vs[0])] + view_vals(vs.drop_first())
    }
}

impl View for Value {
    type V = SpecVal;

    open spec fn view(&self) -> SpecVal {
        view_val(*self)
    }
}

/// Pointwise characterization of `view_vals`: it models each element.
pub broadcast proof fn lemma_view_vals(vs: Seq<Value>)
    ensures
        (#[trigger] view_vals(vs)).len() == vs.len(),
        forall|i: int| 0 <= i < vs.len() ==> view_vals(vs)[i] == vs[i]@,
    decreases vs.len(),
{
    if vs.len() > 0 {
        lemma_view_vals(vs.drop_first());
        assert forall|i: int| 0 <= i < vs.len() implies view_vals(vs)[i] == vs[i]@ by {
            if i > 0 {
                assert(view_vals(vs)[i] == view_vals(vs.drop_first())[i - 1]);
                assert(vs.drop_first()[i - 1] == vs[i]);
            }
        }
    }
}

/// One lexical scope: its bindings, and the index of its parent scope,
/// if it has one.  Later pairs shadow earlier pairs with the same name.
pub struct Scope {
    pub bindings: Vec<(String, Value)>,
    pub parent: Option<usize>,
}

/// The model of one scope: a name-to-value map and the parent index.
pub ghost struct SpecScope {
    pub bindings: Map<Seq<char>, SpecVal>,
    pub parent: Option<nat>,
}

/// The map that a pair list denotes: pairs apply in order, so a later
/// pair with the same name wins.
pub open spec fn pairs_to_map(ps: Seq<(String, Value)>) -> Map<Seq<char>, SpecVal>
    decreases ps.len(),
{
    if ps.len() == 0 {
        Map::empty()
    } else {
        pairs_to_map(ps.drop_last()).insert(ps.last().0@, ps.last().1@)
    }
}

impl View for Scope {
    type V = SpecScope;

    open spec fn view(&self) -> SpecScope {
        SpecScope {
            bindings: pairs_to_map(self.bindings@),
            parent: match self.parent {
                Some(p) => Some(p as nat),
                None => None,
            },
        }
    }
}

/// A chain of lexical scopes, held as one arena so that closures can
/// share scopes by index.  The scope at index 0 is the root; parent
/// links only ever point to lower indices, so the chain is acyclic.
pub struct Environment {
    pub scopes: Vec<Scope>,
}

impl View for Environment {
    type V = Seq<SpecScope>;

    open spec fn view(&self) -> Seq<SpecScope> {
        Seq::new(self.scopes@.len(), |i: int| self.scopes@[i]@)
    }
}

/// A value makes sense in a store of `n` scopes: every closure it holds
/// captured a scope that exists.
pub open spec fn val_ok(v: SpecVal, n: int) -> bool
    decreases v,
{
    match v {
        SpecVal::List(vs) => forall|i: int| 0 <= i < vs.len() ==> val_ok(#[trigger] vs[i], n),
        SpecVal::Closure { env, params, body } => env < n,
        _ => true,
    }
}

/// A scope at index `i` is sound: its parent sits strictly below it and
/// all its values make sense in the store.
pub open spec fn scope_ok(sc: SpecScope, i: int, n: int) -> bool {
    &&& (sc.parent matches Some(p) ==> p < i)
    &&& forall|k: Seq<char>|
        #[trigger] sc.bindings.contains_key(k) ==> val_ok(sc.bindings[k], n)
}

/// Every scope of the store is sound.
pub open spec fn env_ok(env: Seq<SpecScope>) -> bool {
    forall|i: int| 0 <= i < env.len() ==> scope_ok(#[trigger] env[i], i, env.len() as int)
}

/// What a name resolves to from scope `scope`: the local binding first,
/// then the parent chain, `None` at the root.
pub open spec fn spec_lookup(env: Seq<SpecScope>, scope: int, name: Seq<char>) -> Option<SpecVal>
    decreases scope,
{
    if 0 <= scope < env.len() {
        let sc = env[scope];
        if sc.bindings.contains_key(name) {
            Some(sc.bindings[name])
        } else {
            match sc.parent {
                Some(p) => if p < scope {
                    spec_lookup(env, p as int, name)
                } else {
                    None
                },
                None => None,
            }
        }
    } else {
        None
    }
}

/// A value grows no less sound as the store grows.
pub proof fn lemma_val_ok_mono(v: SpecVal, n: int, m: int)
    requires
        val_ok(v, n),
        n <= m,
    ensures
        val_ok(v, m),
    decreases v,
{
    match v {
        SpecVal::List(vs) => {
            assert forall|i: int| 0 <= i < vs.len() implies val_ok(#[trigger] vs[i], m) by {
                lemma_val_ok_mono(vs[i], n, m);
            }
        },
        _ => {},
    }
}

/// Whatever lookup finds in a sound store makes sense in that store.
pub proof fn lemma_lookup_ok(env: Seq<SpecScope>, scope: int, name: Seq<char>)
    requires
        env_ok(env),
    ensures
        spec_lookup(env, scope, name) matches Some(v) ==> val_ok(v, env.len() as int),
    decreases scope,
{
    if 0 <= scope < env.len() {
        let sc = env[scope];
        if !sc.bindings.contains_key(name) {
            match sc.parent {
                Some(p) => {
                    if p < scope {
                        lemma_lookup_ok(env, p as int, name);
                    }
                },
                None => {},
            }
        }
    }
}

/// A sound store stays sound when a sound scope is pushed onto it.
pub proof fn lemma_env_ok_push(env: Seq<SpecScope>, sc: SpecScope)
    requires
        env_ok(env),
        sc.parent matches Some(p) ==> p < env.len(),
        forall|k: Seq<char>|
            #[trigger] sc.bindings.contains_key(k) ==> val_ok(sc.bindings[k], env.len() as int),
    ensures
        env_ok(env.push(sc)),
{
    let env2 = env.push(sc);
    let n2 = env2.len() as int;
    assert forall|i: int| 0 <= i < env2.len() implies scope_ok(#[trigger] env2[i], i, n2) by {
        if i < env.len() {
            assert(env2[i] == env[i]);
            assert(scope_ok(env[i], i, env.len() as int));
            assert forall|k: Seq<char>|
                #[trigger] env2[i].bindings.contains_key(k) implies val_ok(
                env2[i].bindings[k],
                n2,
            ) by {
                lemma_val_ok_mono(env[i].bindings[k], env.len() as int, n2);
            }
        } else {
            assert(env2[i] == sc);
            assert forall|k: Seq<char>|
                #[trigger] sc.bindings.contains_key(k) implies val_ok(sc.bindings[k], n2) by {
                lemma_val_ok_mono(sc.bindings[k], env.len() as int, n2);
            }
        }
    }
}

/// A sound store stays sound when one scope gains one sound binding.
pub proof fn lemma_env_ok_insert(env: Seq<SpecScope>, scope: int, name: Seq<char>, v: SpecVal)
    requires
        env_ok(env),
        0 <= scope < env.len(),
        val_ok(v, env.len() as int),
    ensures
        env_ok(
            env.update(
                scope,
                SpecScope {
                    bindings: env[scope].bindings.insert(name, v),
                    parent: env[scope].parent,
                },
            ),
        ),
{
    let sc2 = SpecScope { bindings: env[scope].bindings.insert(name, v), parent: env[scope].parent };
    let env2 = env.update(scope, sc2);
    let n2 = env2.len() as int;
    assert forall|i: int| 0 <= i < env2.len() implies scope_ok(#[trigger] env2[i], i, n2) by {
        if i == scope {
            assert forall|k: Seq<char>|
                #[trigger] sc2.bindings.contains_key(k) implies val_ok(sc2.bindings[k], n2) by {
                if k != name {
                    assert(env[scope].bindings.contains_key(k));
                }
            }
        } else {
            assert(env2[i] == env[i]);
        }
    }
}

/// What the strictly binary `+` builtin makes of its evaluated
/// operands: exactly two, both integers, and a sum that fits.
pub open spec fn spec_add(vs: Seq<SpecVal>) -> Result<SpecVal, EvalError> {
    if vs.len() != 2 {
        Err(EvalError::ArityError)
    } else if !(vs[0] is Int) || !(vs[1] is Int) {
        Err(EvalError::TypeError)
    } else {
        let sum = vs[0]->Int_0 + vs[1]->Int_0;
        if i64::MIN <= sum <= i64::MAX {
            Ok(SpecVal::Int(sum))
        } else {
            Err(EvalError::Overflow)
        }
    }
}

/// Every element is a symbol, as a lambda's parameter list requires.
pub open spec fn all_symbols(ps: Seq<SpecExpr>) -> bool {
    forall|i: int| 0 <= i < ps.len() ==> (#[trigger] ps[i]) is Symbol
}

/// The names of a parameter list, in order.
pub open spec fn params_of(ps: Seq<SpecExpr>) -> Seq<Seq<char>> {
    Seq::new(ps.len(), |i: int| ps[i]->Symbol_0)
}

/// The bindings of a call frame: parameters bound to arguments in
/// order, a later duplicate parameter shadowing an earlier one.
pub open spec fn bind_params(params: Seq<Seq<char>>, vs: Seq<SpecVal>) -> Map<Seq<char>, SpecVal>
    decreases params.len(),
{
    if params.len() == 0 || vs.len() == 0 {
        Map::empty()
    } else {
        bind_params(params.drop_last(), vs.drop_last()).insert(params.last(), vs.last())
    }
}

/// Truthiness: every value but the integer zero.
pub open spec fn truthy(v: SpecVal) -> bool {
    v != SpecVal::Int(0)
}

/// The model of evaluation: what one expression makes of a store, a
/// current scope and a depth budget — the store afterwards, and either
/// the value produced or the error.  The budget is spent only when a
/// closure body is entered, so it bounds call depth, not work.
///
/// Dispatch follows the expression's shape.  A list headed by one of
/// the special symbols `if`, `let`, `define`, `lambda`, `+` gets that
/// form's meaning whatever the symbol may be bound to; any other
/// symbol head is a closure application.
pub open spec fn spec_eval(env: Seq<SpecScope>, scope: nat, e: SpecExpr, fuel: nat) -> (
    Seq<SpecScope>,
    Result<SpecVal, EvalError>,
)
    decreases fuel, e, 2int, 0int,
{
    match e {
        SpecExpr::Int(i) => (env, Ok(SpecVal::Int(i))),
        SpecExpr::Str(s) => (env, Ok(SpecVal::Str(s))),
        SpecExpr::Symbol(n) => (
            env,
            match spec_lookup(env, scope as int, n) {
                Some(v) => Ok(v),
                None => Err(EvalError::UnboundName),
            },
        ),
        SpecExpr::List(es) => {
            if es.len() == 0 {
                (env, Err(EvalError::InvalidForm))
            } else {
                match es[0] {
                    SpecExpr::Symbol(name) => {
                        if name == "if"@ {
                            spec_eval_if(env, scope, es, fuel)
                        } else if name == "let"@ {
                            spec_eval_let(env, scope, es, fuel)
                        } else if name == "define"@ {
                            spec_eval_define(env, scope, es, fuel)
                        } else if name == "lambda"@ {
                            (env, spec_make_lambda(scope, es))
                        } else if name == "+"@ {
                            let (env1, rr) = spec_eval_args(
                                env,
                                scope,
                                es.subrange(1, es.len() as int),
                                fuel,
                            );
                            match rr {
                                Ok(vs) => (env1, spec_add(vs)),
                                Err(err) => (env1, Err(err)),
                            }
                        } else {
                            spec_eval_apply(env, scope, name, es, fuel)
                        }
                    },
                    _ => (env, Err(EvalError::InvalidForm)),
                }
            }
        },
    }
}

/// The `if` form: `(if cond then else)`.  The condition decides which
/// branch is evaluated; the other is never entered.
pub open spec fn spec_eval_if(env: Seq<SpecScope>, scope: nat, es: Seq<SpecExpr>, fuel: nat) -> (
    Seq<SpecScope>,
    Result<SpecVal, EvalError>,
)
    decreases fuel, es, 1int, 0int,
{
    if es.len() != 4 {
        (env, Err(EvalError::InvalidForm))
    } else {
        let (env1, rc) = spec_eval(env, scope, es[1], fuel);
        match rc {
            Ok(c) => if truthy(c) {
                spec_eval(env1, scope, es[2], fuel)
            } else {
                spec_eval(env1, scope, es[3], fuel)
            },
            Err(err) => (env1, Err(err)),
        }
    }
}

/// The `let` form: `(let ((name expr) ...) body)`.  Every binding
/// expression is evaluated in the enclosing scope — bindings are
/// non-recursive and do not see one another — then all bindings enter
/// one fresh child scope, and the body is evaluated there.
pub open spec fn spec_eval_let(env: Seq<SpecScope>, scope: nat, es: Seq<SpecExpr>, fuel: nat) -> (
    Seq<SpecScope>,
    Result<SpecVal, EvalError>,
)
    decreases fuel, es, 1int, 0int,
{
    if es.len() != 3 || !(es[1] is List) {
        (env, Err(EvalError::InvalidForm))
    } else {
        let (env1, rb) = spec_eval_binds(env, scope, es[1]->List_0, Map::empty(), fuel);
        match rb {
            Ok(m) => {
                let child = SpecScope { bindings: m, parent: Some(scope) };
                spec_eval(env1.push(child), env1.len(), es[2], fuel)
            },
            Err(err) => (env1, Err(err)),
        }
    }
}

/// One pass over a `let`'s binding list, accumulating the new scope's
/// map; each value expression is evaluated in the enclosing scope.
pub open spec fn spec_eval_binds(
    env: Seq<SpecScope>,
    scope: nat,
    bs: Seq<SpecExpr>,
    acc: Map<Seq<char>, SpecVal>,
    fuel: nat,
) -> (Seq<SpecScope>, Result<Map<Seq<char>, SpecVal>, EvalError>)
    decreases fuel, bs, 1int, bs.len(),
{
    if bs.len() == 0 {
        (env, Ok(acc))
    } else {
        let b = bs[0];
        if !(b is List) || b->List_0.len() != 2 || !(b->List_0[0] is Symbol) {
            (env, Err(EvalError::InvalidForm))
        } else {
            let (env1, r0) = spec_eval(env, scope, b->List_0[1], fuel);
            match r0 {
                Ok(v) => spec_eval_binds(
                    env1,
                    scope,
                    bs.subrange(1, bs.len() as int),
                    acc.insert(b->List_0[0]->Symbol_0, v),
                    fuel,
                ),
                Err(err) => (env1, Err(err)),
            }
        }
    }
}

/// The `define` form: `(define name expr)`.  The value is computed in
/// the current scope, then bound — or rebound — in that same scope,
/// and is also the form's result.  A closure defined this way can call
/// itself: its body looks its own name up in the scope it captured,
/// where this binding has by then been installed.
pub open spec fn spec_eval_define(
    env: Seq<SpecScope>,
    scope: nat,
    es: Seq<SpecExpr>,
    fuel: nat,
) -> (Seq<SpecScope>, Result<SpecVal, EvalError>)
    decreases fuel, es, 1int, 0int,
{
    if es.len() != 3 || !(es[1] is Symbol) {
        (env, Err(EvalError::InvalidForm))
    } else {
        let (env1, r0) = spec_eval(env, scope, es[2], fuel);
        match r0 {
            Ok(v) => {
                if 0 <= scope < env1.len() {
                    let sc2 = SpecScope {
                        bindings: env1[scope as int].bindings.insert(es[1]->Symbol_0, v),
                        parent: env1[scope as int].parent,
                    };
                    (env1.update(scope as int, sc2), Ok(v))
                } else {
                    (env1, Ok(v))
                }
            },
            Err(err) => (env1, Err(err)),
        }
    }
}

/// The `lambda` form: `(lambda (params ...) body)` closes over the
/// scope that is current at creation, by index — not over a copy of
/// its bindings — which is what makes scoping lexical and lets later
/// definitions in that scope reach the closure's body.
pub open spec fn spec_make_lambda(scope: nat, es: Seq<SpecExpr>) -> Result<SpecVal, EvalError> {
    if es.len() != 3 || !(es[1] is List) || !all_symbols(es[1]->List_0) {
        Err(EvalError::InvalidForm)
    } else {
        Ok(
            SpecVal::Closure {
                env: scope,
                params: params_of(es[1]->List_0),
                body: es[2],
            },
        )
    }
}

/// Left-to-right evaluation of argument expressions.
pub open spec fn spec_eval_args(env: Seq<SpecScope>, scope: nat, args: Seq<SpecExpr>, fuel: nat) -> (
    Seq<SpecScope>,
    Result<Seq<SpecVal>, EvalError>,
)
    decreases fuel, args, 1int, args.len(),
{
    if args.len() == 0 {
        (env, Ok(Seq::empty()))
    } else {
        let (env1, r0) = spec_eval(env, scope, args[0], fuel);
        match r0 {
            Ok(v) => {
                let (env2, rr) = spec_eval_args(env1, scope, args.subrange(1, args.len() as int), fuel);
                match rr {
                    Ok(vs) => (env2, Ok(seq![v] + vs)),
                    Err(err) => (env2, Err(err)),
                }
            },
            Err(err) => (env1, Err(err)),
        }
    }
}

/// Application of a symbol that names no special form: the symbol must
/// resolve to a closure; the arguments are evaluated left to right in
/// the caller's scope; their count must match the parameter list; and
/// the body runs in a fresh scope whose parent is the scope the
/// closure captured — the caller's scope plays no part in resolution.
pub open spec fn spec_eval_apply(
    env: Seq<SpecScope>,
    scope: nat,
    name: Seq<char>,
    es: Seq<SpecExpr>,
    fuel: nat,
) -> (Seq<SpecScope>, Result<SpecVal, EvalError>)
    decreases fuel, es, 1int, 0int,
{
    if es.len() == 0 {
        (env, Err(EvalError::InvalidForm))
    } else {
        match spec_lookup(env, scope as int, name) {
        None => (env, Err(EvalError::UnboundName)),
        Some(f) => match f {
            SpecVal::Closure { env: cenv, params, body } => {
                let (env1, rr) = spec_eval_args(env, scope, es.subrange(1, es.len() as int), fuel);
                match rr {
                    Ok(vs) => {
                        if vs.len() != params.len() {
                            (env1, Err(EvalError::ArityError))
                        } else if fuel == 0 {
                            (env1, Err(EvalError::DepthLimit))
                        } else {
                            let frame = SpecScope {
                                bindings: bind_params(params, vs),
                                parent: Some(cenv),
                            };
                            spec_eval(env1.push(frame), env1.len(), body, (fuel - 1) as nat)
                        }
                    },
                    Err(err) => (env1, Err(err)),
                }
            },
            _ => (env, Err(EvalError::NotCallable)),
        }
        }
    }
}

/// A structural copy of an expression; the copy and its source have
/// the same model.
fn dup_expr(e: &Expression) -> (r: Expression)
    ensures
        r@ == e@,
    decreases e,
{
    match e {
        Expression::Int(i) => Expression::Int(*i),
        Expression::Str(s) => Expression::Str(s.clone()),
        Expression::Symbol(s) => Expression::Symbol(s.clone()),
        Expression::List(es) => {
            let mut out: Vec<Expression> = Vec::new();
            let mut i: usize = 0;
            #[verifier::loop_isolation(false)]
            while i < es.len()
                invariant
                    i <= es.len(),
                    out@.len() == i,
                    forall|k: int| 0 <= k < i ==> out@[k]@ == es@[k]@,
                decreases es.len() - i,
            {
                let d = dup_expr(&es[i]);
                out.push(d);
                i = i + 1;
            }
            proof {
                crate::types::lemma_view_exprs(out@);
                crate::types::lemma_view_exprs(es@);
                assert(crate::types::view_exprs(out@) =~= crate::types::view_exprs(es@));
            }
            Expression::List(out)
        },
    }
}

/// A structural copy of a value; the copy and its source have the
/// same model.
fn dup_value(v: &Value) -> (r: Value)
    ensures
        r@ == v@,
    decreases v,
{
    match v {
        Value::Int(i) => Value::Int(*i),
        Value::Str(s) => Value::Str(s.clone()),
        Value::List(vs) => {
            let mut out: Vec<Value> = Vec::new();
            let mut i: usize = 0;
            #[verifier::loop_isolation(false)]
            while i < vs.len()
                invariant
                    i <= vs.len(),
                    out@.len() == i,
                    forall|k: int| 0 <= k < i ==> out@[k]@ == vs@[k]@,
                decreases vs.len() - i,
            {
                let d = dup_value(&vs[i]);
                out.push(d);
                i = i + 1;
            }
            proof {
                lemma_view_vals(out@);
                lemma_view_vals(vs@);
                assert(view_vals(out@) =~= view_vals(vs@));
            }
            Value::List(out)
        },
        Value::Closure { env, params, body } => {
            let mut ps: Vec<String> = Vec::new();
            let mut i: usize = 0;
            #[verifier::loop_isolation(false)]
            while i < params.len()
                invariant
                    i <= params.len(),
                    ps@.len() == i,
                    forall|k: int| 0 <= k < i ==> ps@[k]@ == params@[k]@,
                decreases params.len() - i,
            {
                let s = params[i].clone();
                ps.push(s);
                i = i + 1;
            }
            let b = dup_expr(body);
            proof {
                assert(view_strs(ps@) =~= view_strs(params@));
            }
            Value::Closure { env: *env, params: ps, body: b }
        },
    }
}

/// The binding a name has in one scope's pair list, if any: the latest
/// pair with that name, matching what the scope's map says of it.
fn scope_get<'a>(bindings: &'a Vec<(String, Value)>, name: &String) -> (r: Option<&'a Value>)
    ensures
        match r {
            Some(v) => pairs_to_map(bindings@).contains_key(name@) && pairs_to_map(bindings@)[name@]
                == v@,
            None => !pairs_to_map(bindings@).contains_key(name@),
        },
{
    let mut i = bindings.len();
    proof {
        assert(bindings@.subrange(0, i as int) =~= bindings@);
    }
    #[verifier::loop_isolation(false)]
    loop
        invariant
            i <= bindings@.len(),
            pairs_to_map(bindings@).contains_key(name@) == pairs_to_map(
                bindings@.subrange(0, i as int),
            ).contains_key(name@),
            pairs_to_map(bindings@).contains_key(name@) ==> pairs_to_map(bindings@)[name@]
                == pairs_to_map(bindings@.subrange(0, i as int))[name@],
        decreases i,
    {
        if i == 0 {
            proof {
                assert(bindings@.subrange(0, 0) =~= Seq::<(String, Value)>::empty());
            }
            return None;
        }
        i = i - 1;
        let ghost pre = bindings@.subrange(0, i + 1);
        proof {
            assert(pre.drop_last() =~= bindings@.subrange(0, i as int));
            assert(pre.last() == bindings@[i as int]);
        }
        let pair = &bindings[i];
        if pair.0 == *name {
            return Some(&pair.1);
        }
    }
}

/// What a name resolves to, walking the scope chain from `scope`; the
/// result is a copy of the stored value.
fn lookup(env: &Environment, scope: usize, name: &String) -> (r: Option<Value>)
    requires
        env_ok(env@),
        scope < env@.len(),
    ensures
        match r {
            Some(v) => spec_lookup(env@, scope as int, name@) == Some(v@) && val_ok(
                v@,
                env@.len() as int,
            ),
            None => spec_lookup(env@, scope as int, name@) is None,
        },
{
    let mut cur = scope;
    #[verifier::loop_isolation(false)]
    loop
        invariant
            cur < env@.len(),
            spec_lookup(env@, scope as int, name@) == spec_lookup(env@, cur as int, name@),
        decreases cur,
    {
        let sc = &env.scopes[cur];
        proof {
            assert(env@[cur as int] == sc@);
        }
        match scope_get(&sc.bindings, name) {
            Some(v) => {
                let out = dup_value(v);
                proof {
                    lemma_lookup_ok(env@, scope as int, name@);
                }
                return Some(out);
            },
            None => {
                match sc.parent {
                    Some(p) => {
                        proof {
                            assert(scope_ok(env@[cur as int], cur as int, env@.len() as int));
                        }
                        cur = p;
                    },
                    None => {
                        return None;
                    },
                }
            },
        }
    }
}

/// The strictly binary integer addition builtin.
fn op_add(args: &Vec<Value>) -> (r: Result<Value, EvalError>)
    ensures
        match r {
            Ok(v) => spec_add(view_vals(args@)) == Ok::<_, EvalError>(v@),
            Err(e) => spec_add(view_vals(args@)) == Err::<SpecVal, _>(e),
        },
{
    proof {
        lemma_view_vals(args@);
    }
    if args.len() != 2 {
        return Err(EvalError::ArityError);
    }
    let a = match &args[0] {
        Value::Int(i) => *i,
        _ => {
            return Err(EvalError::TypeError);
        },
    };
    let b = match &args[1] {
        Value::Int(i) => *i,
        _ => {
            return Err(EvalError::TypeError);
        },
    };
    if (b > 0 && a > i64::MAX - b) || (b < 0 && a < i64::MIN - b) {
        return Err(EvalError::Overflow);
    }
    Ok(Value::Int(a + b))
}

/// Every value of the list makes sense in a store of `n` scopes.
pub open spec fn vals_all_ok(vs: Seq<Value>, n: int) -> bool {
    forall|k: int| 0 <= k < vs.len() ==> val_ok((#[trigger] vs[k])@, n)
}

/// A call frame's bindings are as sound as the argument values.
proof fn lemma_bind_params_ok(params: Seq<Seq<char>>, vs: Seq<SpecVal>, n: int)
    requires
        forall|k: int| 0 <= k < vs.len() ==> val_ok(#[trigger] vs[k], n),
    ensures
        forall|k: Seq<char>|
            #[trigger] bind_params(params, vs).contains_key(k) ==> val_ok(
                bind_params(params, vs)[k],
                n,
            ),
    decreases params.len(),
{
    if params.len() > 0 && vs.len() > 0 {
        lemma_bind_params_ok(params.drop_last(), vs.drop_last(), n);
        let m = bind_params(params, vs);
        assert forall|k: Seq<char>| #[trigger] m.contains_key(k) implies val_ok(m[k], n) by {
            if k == params.last() {
                assert(m[k] == vs.last());
            } else {
                assert(bind_params(params.drop_last(), vs.drop_last()).contains_key(k));
            }
        }
    }
}

/// The depth budget that the public entry point grants an evaluation.
pub const EVAL_FUEL: u64 = 256;

impl Environment {
    /// Every scope of this environment is sound.
    pub open spec fn wf(&self) -> bool {
        env_ok(self@)
    }

    /// A fresh environment: one empty root scope and nothing else.
    pub fn new() -> (r: Environment)
        ensures
            r.wf(),
            r@.len() == 1,
            r@[0].bindings == Map::<Seq<char>, SpecVal>::empty(),
            r@[0].parent is None,
    {
        let root = Scope { bindings: Vec::new(), parent: None };
        let mut scopes: Vec<Scope> = Vec::new();
        scopes.push(root);
        let env = Environment { scopes };
        proof {
            assert(env@[0].bindings =~= Map::<Seq<char>, SpecVal>::empty());
        }
        env
    }
}

/// Evaluates one expression in the environment's root scope.  The
/// result — store, value, error — is exactly what `spec_eval` says of
/// the expression, with the default depth budget.
pub fn eval(env: &mut Environment, expr: &Expression) -> (r: Result<Value, EvalError>)
    requires
        old(env).wf(),
        old(env)@.len() >= 1,
    ensures
        final(env).wf(),
        old(env)@.len() <= final(env)@.len(),
        ({
            let (env2, rr) = spec_eval(old(env)@, 0, expr@, EVAL_FUEL as nat);
            &&& final(env)@ == env2
            &&& match r {
                Ok(v) => rr == Ok::<_, EvalError>(v@),
                Err(e) => rr == Err::<SpecVal, _>(e),
            }
        }),
{
    eval_in(env, 0, expr, EVAL_FUEL)
}

/// Evaluates one expression in the given scope, mirroring `spec_eval`
/// case for case.
fn eval_in(env: &mut Environment, scope: usize, expr: &Expression, fuel: u64) -> (r: Result<
    Value,
    EvalError,
>)
    requires
        env_ok(old(env)@),
        scope < old(env)@.len(),
    ensures
        env_ok(final(env)@),
        old(env)@.len() <= final(env)@.len(),
        ({
            let (env2, rr) = spec_eval(old(env)@, scope as nat, expr@, fuel as nat);
            &&& final(env)@ == env2
            &&& match r {
                Ok(v) => rr == Ok::<_, EvalError>(v@) && val_ok(v@, final(env)@.len() as int),
                Err(e) => rr == Err::<SpecVal, _>(e),
            }
        }),
    decreases fuel, *expr, 2int, 0int,
{
    match expr {
        Expression::Int(i) => Ok(Value::Int(*i)),
        Expression::Str(s) => Ok(Value::Str(s.clone())),
        Expression::Symbol(s) => match lookup(env, scope, s) {
            Some(v) => Ok(v),
            None => Err(EvalError::UnboundName),
        },
        Expression::List(es) => {
            proof {
                crate::types::lemma_view_exprs(es@);
            }
            if es.len() == 0 {
                return Err(EvalError::InvalidForm);
            }
            match &es[0] {
                Expression::Symbol(name) => {
                    if *name == String::from_str("if") {
                        eval_if(env, scope, es, fuel)
                    } else if *name == String::from_str("let") {
                        eval_let(env, scope, es, fuel)
                    } else if *name == String::from_str("define") {
                        eval_define(env, scope, es, fuel)
                    } else if *name == String::from_str("lambda") {
                        make_lambda(scope, es)
                    } else if *name == String::from_str("+") {
                        let mut vals: Vec<Value> = Vec::new();
                        proof {
                            lemma_view_vals(vals@);
                        }
                        match eval_args(env, scope, es, 1, &mut vals, fuel) {
                            Ok(()) => {
                                proof {
                                    let suffix = crate::types::view_exprs(es@).subrange(
                                        1,
                                        es@.len() as int,
                                    );
                                    let (env2, rr) = spec_eval_args(
                                        old(env)@,
                                        scope as nat,
                                        suffix,
                                        fuel as nat,
                                    );
                                    match rr {
                                        Ok(vs) => {
                                            assert(Seq::<SpecVal>::empty() + vs =~= vs);
                                        },
                                        Err(_) => {},
                                    }
                                }
                                op_add(&vals)
                            },
                            Err(e) => Err(e),
                        }
                    } else {
                        eval_apply(env, scope, name, es, fuel)
                    }
                },
                _ => Err(EvalError::InvalidForm),
            }
        },
    }
}

/// The executable `if` form; see `spec_eval_if`.
fn eval_if(env: &mut Environment, scope: usize, es: &Vec<Expression>, fuel: u64) -> (r: Result<
    Value,
    EvalError,
>)
    requires
        env_ok(old(env)@),
        scope < old(env)@.len(),
    ensures
        env_ok(final(env)@),
        old(env)@.len() <= final(env)@.len(),
        ({
            let (env2, rr) = spec_eval_if(
                old(env)@,
                scope as nat,
                crate::types::view_exprs(es@),
                fuel as nat,
            );
            &&& final(env)@ == env2
            &&& match r {
                Ok(v) => rr == Ok::<_, EvalError>(v@) && val_ok(v@, final(env)@.len() as int),
                Err(e) => rr == Err::<SpecVal, _>(e),
            }
        }),
    decreases fuel, es@, 2int, 0int,
{
    proof {
        crate::types::lemma_view_exprs(es@);
    }
    if es.len() != 4 {
        return Err(EvalError::InvalidForm);
    }
    match eval_in(env, scope, &es[1], fuel) {
        Ok(cv) => {
            let truthy_flag = match &cv {
                Value::Int(i) => *i != 0,
                _ => true,
            };
            if truthy_flag {
                eval_in(env, scope, &es[2], fuel)
            } else {
                eval_in(env, scope, &es[3], fuel)
            }
        },
        Err(e) => Err(e),
    }
}

/// The executable `let` form; see `spec_eval_let`.
fn eval_let(env: &mut Environment, scope: usize, es: &Vec<Expression>, fuel: u64) -> (r: Result<
    Value,
    EvalError,
>)
    requires
        env_ok(old(env)@),
        scope < old(env)@.len(),
    ensures
        env_ok(final(env)@),
        old(env)@.len() <= final(env)@.len(),
        ({
            let (env2, rr) = spec_eval_let(
                old(env)@,
                scope as nat,
                crate::types::view_exprs(es@),
                fuel as nat,
            );
            &&& final(env)@ == env2
            &&& match r {
                Ok(v) => rr == Ok::<_, EvalError>(v@) && val_ok(v@, final(env)@.len() as int),
                Err(e) => rr == Err::<SpecVal, _>(e),
            }
        }),
    decreases fuel, es@, 2int, 0int,
{
    proof {
        crate::types::lemma_view_exprs(es@);
    }
    if es.len() != 3 {
        return Err(EvalError::InvalidForm);
    }
    let bs = match &es[1] {
        Expression::List(bs) => bs,
        _ => {
            return Err(EvalError::InvalidForm);
        },
    };
    let mut pairs: Vec<(String, Value)> = Vec::new();
    proof {
        crate::types::lemma_view_exprs(bs@);
        assert(crate::types::view_exprs(bs@).subrange(0, bs@.len() as int) =~= crate::types::view_exprs(bs@));
        assert(pairs_to_map(pairs@) =~= Map::<Seq<char>, SpecVal>::empty());
    }
    match eval_binds(env, scope, bs, 0, &mut pairs, fuel) {
        Err(e) => Err(e),
        Ok(()) => {
            let ghost env1 = env@;
            let ns = env.scopes.len();
            let child = Scope { bindings: pairs, parent: Some(scope) };
            let ghost childv = child@;
            env.scopes.push(child);
            proof {
                assert(env@ =~= env1.push(childv));
                lemma_env_ok_push(env1, childv);
            }
            eval_in(env, ns, &es[2], fuel)
        },
    }
}

/// The executable pass over a `let`'s binding list; see
/// `spec_eval_binds`.  Evaluated bindings accumulate in `pairs`.
fn eval_binds(
    env: &mut Environment,
    scope: usize,
    bs: &Vec<Expression>,
    i: usize,
    pairs: &mut Vec<(String, Value)>,
    fuel: u64,
) -> (r: Result<(), EvalError>)
    requires
        env_ok(old(env)@),
        scope < old(env)@.len(),
        i <= bs@.len(),
        forall|k: Seq<char>|
            #[trigger] pairs_to_map(old(pairs)@).contains_key(k) ==> val_ok(
                pairs_to_map(old(pairs)@)[k],
                old(env)@.len() as int,
            ),
    ensures
        env_ok(final(env)@),
        old(env)@.len() <= final(env)@.len(),
        ({
            let (env2, rr) = spec_eval_binds(
                old(env)@,
                scope as nat,
                crate::types::view_exprs(bs@).subrange(i as int, bs@.len() as int),
                pairs_to_map(old(pairs)@),
                fuel as nat,
            );
            &&& final(env)@ == env2
            &&& match r {
                Ok(()) => rr == Ok::<_, EvalError>(pairs_to_map(final(pairs)@)) && (forall|
                    k: Seq<char>,
                |
                    #[trigger] pairs_to_map(final(pairs)@).contains_key(k) ==> val_ok(
                        pairs_to_map(final(pairs)@)[k],
                        final(env)@.len() as int,
                    )),
                Err(e) => rr == Err::<Map<Seq<char>, SpecVal>, _>(e),
            }
        }),
    decreases fuel, bs@, 1int, bs@.len() - i,
{
    proof {
        crate::types::lemma_view_exprs(bs@);
    }
    let ghost suffix = crate::types::view_exprs(bs@).subrange(i as int, bs@.len() as int);
    if i == bs.len() {
        proof {
            assert(suffix =~= Seq::<SpecExpr>::empty());
        }
        return Ok(());
    }
    proof {
        assert(suffix[0] == bs@[i as int]@);
    }
    let b = match &bs[i] {
        Expression::List(b) => b,
        _ => {
            return Err(EvalError::InvalidForm);
        },
    };
    proof {
        crate::types::lemma_view_exprs(b@);
    }
    if b.len() != 2 {
        return Err(EvalError::InvalidForm);
    }
    let bname = match &b[0] {
        Expression::Symbol(s) => s,
        _ => {
            return Err(EvalError::InvalidForm);
        },
    };
    match eval_in(env, scope, &b[1], fuel) {
        Err(e) => Err(e),
        Ok(v) => {
            let ghost prevp = pairs@;
            let ghost vv = v@;
            let nm = bname.clone();
            pairs.push((nm, v));
            proof {
                assert(pairs@.drop_last() =~= prevp);
                assert(pairs_to_map(pairs@) == pairs_to_map(prevp).insert(bname@, vv));
                assert forall|k: Seq<char>|
                    #[trigger] pairs_to_map(pairs@).contains_key(k) implies val_ok(
                    pairs_to_map(pairs@)[k],
                    env@.len() as int,
                ) by {
                    if k != bname@ {
                        assert(pairs_to_map(prevp).contains_key(k));
                        lemma_val_ok_mono(
                            pairs_to_map(prevp)[k],
                            old(env)@.len() as int,
                            env@.len() as int,
                        );
                    }
                }
                assert(suffix.subrange(1, suffix.len() as int) =~= crate::types::view_exprs(
                    bs@,
                ).subrange(i as int + 1, bs@.len() as int));
            }
            eval_binds(env, scope, bs, i + 1, pairs, fuel)
        },
    }
}

/// The executable `define` form; see `spec_eval_define`.
fn eval_define(env: &mut Environment, scope: usize, es: &Vec<Expression>, fuel: u64) -> (r: Result<
    Value,
    EvalError,
>)
    requires
        env_ok(old(env)@),
        scope < old(env)@.len(),
    ensures
        env_ok(final(env)@),
        old(env)@.len() <= final(env)@.len(),
        ({
            let (env2, rr) = spec_eval_define(
                old(env)@,
                scope as nat,
                crate::types::view_exprs(es@),
                fuel as nat,
            );
            &&& final(env)@ == env2
            &&& match r {
                Ok(v) => rr == Ok::<_, EvalError>(v@) && val_ok(v@, final(env)@.len() as int),
                Err(e) => rr == Err::<SpecVal, _>(e),
            }
        }),
    decreases fuel, es@, 2int, 0int,
{
    proof {
        crate::types::lemma_view_exprs(es@);
    }
    if es.len() != 3 {
        return Err(EvalError::InvalidForm);
    }
    let dname = match &es[1] {
        Expression::Symbol(s) => s,
        _ => {
            return Err(EvalError::InvalidForm);
        },
    };
    match eval_in(env, scope, &es[2], fuel) {
        Err(e) => Err(e),
        Ok(v) => {
            let ghost env1 = env@;
            let ghost vv = v@;
            let stored = dup_value(&v);
            let nm = dname.clone();
            let sc = &mut env.scopes[scope];
            let ghost scpre = sc@;
            let ghost bpre = sc.bindings@;
            sc.bindings.push((nm, stored));
            proof {
                assert(sc.bindings@.drop_last() =~= bpre);
                assert(sc@.bindings == scpre.bindings.insert(dname@, vv));
                assert(env@ =~= env1.update(
                    scope as int,
                    SpecScope {
                        bindings: env1[scope as int].bindings.insert(dname@, vv),
                        parent: env1[scope as int].parent,
                    },
                ));
                lemma_env_ok_insert(env1, scope as int, dname@, vv);
            }
            Ok(v)
        },
    }
}

/// The executable `lambda` form; see `spec_make_lambda`.
fn make_lambda(scope: usize, es: &Vec<Expression>) -> (r: Result<Value, EvalError>)
    ensures
        match r {
            Ok(v) => spec_make_lambda(scope as nat, crate::types::view_exprs(es@)) == Ok::<
                _,
                EvalError,
            >(v@) && val_ok(v@, scope + 1),
            Err(e) => spec_make_lambda(scope as nat, crate::types::view_exprs(es@)) == Err::<
                SpecVal,
                _,
            >(e),
        },
{
    proof {
        crate::types::lemma_view_exprs(es@);
    }
    if es.len() != 3 {
        return Err(EvalError::InvalidForm);
    }
    let ps = match &es[1] {
        Expression::List(ps) => ps,
        _ => {
            return Err(EvalError::InvalidForm);
        },
    };
    proof {
        crate::types::lemma_view_exprs(ps@);
    }
    let mut names: Vec<String> = Vec::new();
    let mut j: usize = 0;
    #[verifier::loop_isolation(false)]
    while j < ps.len()
        invariant
            j <= ps@.len(),
            names@.len() == j,
            forall|k: int| 0 <= k < j ==> ps@[k]@ is Symbol,
            forall|k: int| 0 <= k < j ==> names@[k]@ == ps@[k]@->Symbol_0,
        decreases ps@.len() - j,
    {
        match &ps[j] {
            Expression::Symbol(s) => {
                let nm = s.clone();
                names.push(nm);
            },
            _ => {
                proof {
                    assert(!(ps@[j as int]@ is Symbol));
                    assert(crate::types::view_exprs(ps@)[j as int] == ps@[j as int]@);
                    assert(!all_symbols(crate::types::view_exprs(ps@)));
                }
                return Err(EvalError::InvalidForm);
            },
        }
        j = j + 1;
    }
    let body = dup_expr(&es[2]);
    proof {
        assert(all_symbols(crate::types::view_exprs(es@)[1]->List_0));
        assert(view_strs(names@) =~= params_of(crate::types::view_exprs(es@)[1]->List_0));
    }
    Ok(Value::Closure { env: scope, params: names, body })
}

/// Left-to-right evaluation of the argument expressions `es[i..]`,
/// appending the values to `out`; see `spec_eval_args`.
fn eval_args(
    env: &mut Environment,
    scope: usize,
    es: &Vec<Expression>,
    i: usize,
    out: &mut Vec<Value>,
    fuel: u64,
) -> (r: Result<(), EvalError>)
    requires
        env_ok(old(env)@),
        scope < old(env)@.len(),
        i <= es@.len(),
        vals_all_ok(old(out)@, old(env)@.len() as int),
    ensures
        env_ok(final(env)@),
        old(env)@.len() <= final(env)@.len(),
        ({
            let (env2, rr) = spec_eval_args(
                old(env)@,
                scope as nat,
                crate::types::view_exprs(es@).subrange(i as int, es@.len() as int),
                fuel as nat,
            );
            &&& final(env)@ == env2
            &&& match r {
                Ok(()) => (rr matches Ok(vs) && view_vals(final(out)@) == view_vals(old(out)@) + vs)
                    && vals_all_ok(final(out)@, final(env)@.len() as int),
                Err(e) => rr == Err::<Seq<SpecVal>, _>(e),
            }
        }),
    decreases fuel, es@, 1int, es@.len() - i,
{
    proof {
        crate::types::lemma_view_exprs(es@);
        lemma_view_vals(out@);
    }
    let ghost suffix = crate::types::view_exprs(es@).subrange(i as int, es@.len() as int);
    if i == es.len() {
        proof {
            assert(suffix =~= Seq::<SpecExpr>::empty());
            assert(view_vals(out@) + Seq::<SpecVal>::empty() =~= view_vals(out@));
        }
        return Ok(());
    }
    proof {
        assert(suffix[0] == es@[i as int]@);
    }
    match eval_in(env, scope, &es[i], fuel) {
        Err(e) => Err(e),
        Ok(v) => {
            let ghost outpre = out@;
            let ghost vv = v@;
            out.push(v);
            proof {
                lemma_view_vals(out@);
                assert(view_vals(out@) =~= view_vals(outpre).push(vv));
                assert forall|k: int| 0 <= k < out@.len() implies val_ok(
                    (#[trigger] out@[k])@,
                    env@.len() as int,
                ) by {
                    if k < outpre.len() {
                        assert(out@[k] == outpre[k]);
                        lemma_val_ok_mono(outpre[k]@, old(env)@.len() as int, env@.len() as int);
                    }
                }
                assert(suffix.subrange(1, suffix.len() as int) =~= crate::types::view_exprs(
                    es@,
                ).subrange(i as int + 1, es@.len() as int));
            }
            let rec = eval_args(env, scope, es, i + 1, out, fuel);
            proof {
                if rec is Ok {
                    let (env2, rr) = spec_eval_args(
                        old(env)@,
                        scope as nat,
                        suffix,
                        fuel as nat,
                    );
                    let (env2b, rrb) = spec_eval_args(
                        env1_of(old(env)@, scope as nat, es@[i as int]@, fuel as nat),
                        scope as nat,
                        suffix.subrange(1, suffix.len() as int),
                        fuel as nat,
                    );
                    match rrb {
                        Ok(vs2) => {
                            assert(view_vals(outpre).push(vv) + vs2 =~= view_vals(outpre) + (
                            seq![vv] + vs2));
                        },
                        Err(_) => {},
                    }
                }
            }
            rec
        },
    }
}

/// The store after one evaluation; a shorthand for proofs.
pub open spec fn env1_of(env: Seq<SpecScope>, scope: nat, e: SpecExpr, fuel: nat) -> Seq<
    SpecScope,
> {
    spec_eval(env, scope, e, fuel).0
}

/// The executable application of a non-special symbol; see
/// `spec_eval_apply`.
fn eval_apply(
    env: &mut Environment,
    scope: usize,
    name: &String,
    es: &Vec<Expression>,
    fuel: u64,
) -> (r: Result<Value, EvalError>)
    requires
        env_ok(old(env)@),
        scope < old(env)@.len(),
        es@.len() >= 1,
    ensures
        env_ok(final(env)@),
        old(env)@.len() <= final(env)@.len(),
        ({
            let (env2, rr) = spec_eval_apply(
                old(env)@,
                scope as nat,
                name@,
                crate::types::view_exprs(es@),
                fuel as nat,
            );
            &&& final(env)@ == env2
            &&& match r {
                Ok(v) => rr == Ok::<_, EvalError>(v@) && val_ok(v@, final(env)@.len() as int),
                Err(e) => rr == Err::<SpecVal, _>(e),
            }
        }),
    decreases fuel, es@, 2int, 0int,
{
    proof {
        crate::types::lemma_view_exprs(es@);
    }
    match lookup(env, scope, name) {
        None => Err(EvalError::UnboundName),
        Some(Value::Closure { env: cenv, params, body }) => {
            let mut vals: Vec<Value> = Vec::new();
            proof {
                lemma_view_vals(vals@);
            }
            match eval_args(env, scope, es, 1, &mut vals, fuel) {
                Err(e) => Err(e),
                Ok(()) => {
                    proof {
                        lemma_view_vals(vals@);
                        let suffix = crate::types::view_exprs(es@).subrange(1, es@.len() as int);
                        let (env2, rr) = spec_eval_args(
                            old(env)@,
                            scope as nat,
                            suffix,
                            fuel as nat,
                        );
                        match rr {
                            Ok(vs) => {
                                assert(Seq::<SpecVal>::empty() + vs =~= vs);
                            },
                            Err(_) => {},
                        }
                    }
                    if vals.len() != params.len() {
                        Err(EvalError::ArityError)
                    } else if fuel == 0 {
                        Err(EvalError::DepthLimit)
                    } else {
                        let mut pairs: Vec<(String, Value)> = Vec::new();
                        let mut j: usize = 0;
                        proof {
                            assert(view_strs(params@).subrange(0, 0) =~= Seq::<Seq<char>>::empty());
                            assert(view_vals(vals@).subrange(0, 0) =~= Seq::<SpecVal>::empty());
                            assert(pairs_to_map(pairs@) =~= bind_params(
                                view_strs(params@).subrange(0, 0),
                                view_vals(vals@).subrange(0, 0),
                            ));
                        }
                        #[verifier::loop_isolation(false)]
                        while j < params.len()
                            invariant
                                j <= params@.len(),
                                params@.len() == vals@.len(),
                                pairs_to_map(pairs@) == bind_params(
                                    view_strs(params@).subrange(0, j as int),
                                    view_vals(vals@).subrange(0, j as int),
                                ),
                            decreases params@.len() - j,
                        {
                            let ghost prevp = pairs@;
                            let nm = params[j].clone();
                            let av = dup_value(&vals[j]);
                            pairs.push((nm, av));
                            proof {
                                lemma_view_vals(vals@);
                                assert(pairs@.drop_last() =~= prevp);
                                let p1 = view_strs(params@).subrange(0, j as int + 1);
                                let v1 = view_vals(vals@).subrange(0, j as int + 1);
                                assert(p1.drop_last() =~= view_strs(params@).subrange(0, j as int));
                                assert(v1.drop_last() =~= view_vals(vals@).subrange(0, j as int));
                                assert(p1.last() == params@[j as int]@);
                                assert(v1.last() == vals@[j as int]@);
                            }
                            j = j + 1;
                        }
                        proof {
                            assert(view_strs(params@).subrange(0, params@.len() as int)
                                =~= view_strs(params@));
                            assert(view_vals(vals@).subrange(0, vals@.len() as int) =~= view_vals(
                                vals@,
                            ));
                        }
                        let ghost env1 = env@;
                        let ns = env.scopes.len();
                        let frame = Scope { bindings: pairs, parent: Some(cenv) };
                        let ghost framev = frame@;
                        env.scopes.push(frame);
                        proof {
                            assert(env@ =~= env1.push(framev));
                            lemma_view_vals(vals@);
                            lemma_bind_params_ok(
                                view_strs(params@),
                                view_vals(vals@),
                                env1.len() as int,
                            );
                            lemma_env_ok_push(env1, framev);
                        }
                        eval_in(env, ns, &body, fuel - 1)
                    }
                },
            }
        },
        Some(_) => Err(EvalError::NotCallable),
    }
}

/// The five special-form names are pairwise distinct.
pub proof fn lemma_special_names_distinct()
    ensures
        "if"@ != "let"@,
        "if"@ != "define"@,
        "if"@ != "lambda"@,
        "if"@ != "+"@,
        "let"@ != "define"@,
        "let"@ != "lambda"@,
        "let"@ != "+"@,
        "define"@ != "lambda"@,
        "define"@ != "+"@,
        "lambda"@ != "+"@,
{
    reveal_strlit("if");
    reveal_strlit("let");
    reveal_strlit("define");
    reveal_strlit("lambda");
    reveal_strlit("+");
    assert("if"@.len() == 2);
    assert("let"@.len() == 3);
    assert("define"@.len() == 6);
    assert("lambda"@.len() == 6);
    assert("+"@.len() == 1);
    assert("define"@[0] == 'd');
    assert("lambda"@[0] == 'l');
}

/// A scope pushed onto the store changes no lookup made from a scope
/// that already existed: a binding in a child scope is never visible
/// through the parent chain.
pub proof fn lemma_lookup_ignores_new_scope(
    env: Seq<SpecScope>,
    sc: SpecScope,
    scope: int,
    name: Seq<char>,
)
    requires
        0 <= scope < env.len(),
    ensures
        spec_lookup(env.push(sc), scope, name) == spec_lookup(env, scope, name),
    decreases scope,
{
    assert(env.push(sc)[scope] == env[scope]);
    if !env[scope].bindings.contains_key(name) {
        match env[scope].parent {
            Some(p) => {
                if p < scope {
                    lemma_lookup_ignores_new_scope(env, sc, p as int, name);
                }
            },
            None => {},
        }
    }
}

/// What `let` does, spelled out from `spec_eval`: the binding pass
/// runs first, in the enclosing scope, and the body then runs in a
/// fresh child scope — one that did not exist in the store before, so
/// by `lemma_lookup_ignores_new_scope` no lookup made later from the
/// enclosing scope sees the names bound here.
pub proof fn lemma_let_form(env: Seq<SpecScope>, scope: nat, es: Seq<SpecExpr>, fuel: nat)
    requires
        es.len() == 3,
        es[0] == SpecExpr::Symbol("let"@),
        es[1] is List,
    ensures
        ({
            let (env1, rb) = spec_eval_binds(env, scope, es[1]->List_0, Map::empty(), fuel);
            spec_eval(env, scope, SpecExpr::List(es), fuel) == match rb {
                Ok(m) => spec_eval(
                    env1.push(SpecScope { bindings: m, parent: Some(scope) }),
                    env1.len(),
                    es[2],
                    fuel,
                ),
                Err(e) => (env1, Err::<SpecVal, EvalError>(e)),
            }
        }),
{
    lemma_special_names_distinct();
}

/// One step of the binding pass, spelled out: the value expression of
/// the first binding is evaluated in the enclosing scope `scope`,
/// never in the scope being built — bindings are non-recursive, and a
/// name used in a later binding resolves against the enclosing chain.
pub proof fn lemma_binds_step(
    env: Seq<SpecScope>,
    scope: nat,
    bs: Seq<SpecExpr>,
    acc: Map<Seq<char>, SpecVal>,
    fuel: nat,
)
    requires
        bs.len() > 0,
        bs[0] is List,
        bs[0]->List_0.len() == 2,
        bs[0]->List_0[0] is Symbol,
    ensures
        ({
            let (env1, r0) = spec_eval(env, scope, bs[0]->List_0[1], fuel);
            spec_eval_binds(env, scope, bs, acc, fuel) == match r0 {
                Ok(v) => spec_eval_binds(
                    env1,
                    scope,
                    bs.subrange(1, bs.len() as int),
                    acc.insert(bs[0]->List_0[0]->Symbol_0, v),
                    fuel,
                ),
                Err(e) => (env1, Err::<Map<Seq<char>, SpecVal>, EvalError>(e)),
            }
        }),
{
}

/// What `lambda` does, spelled out: the closure records the index of
/// the scope that is current at its creation — not a copy of that
/// scope's bindings — so a name defined into that scope afterwards is
/// visible when the closure's body later runs there.
pub proof fn lemma_lambda_form(env: Seq<SpecScope>, scope: nat, es: Seq<SpecExpr>, fuel: nat)
    requires
        es.len() == 3,
        es[0] == SpecExpr::Symbol("lambda"@),
        es[1] is List,
        all_symbols(es[1]->List_0),
    ensures
        spec_eval(env, scope, SpecExpr::List(es), fuel) == (
            env,
            Ok::<_, EvalError>(
                SpecVal::Closure {
                    env: scope,
                    params: params_of(es[1]->List_0),
                    body: es[2],
                },
            ),
        ),
{
    lemma_special_names_distinct();
}

/// What `define` does, spelled out: the value is computed in the
/// current scope, then bound in that same scope — not in a child —
/// and returned.
pub proof fn lemma_define_form(env: Seq<SpecScope>, scope: nat, es: Seq<SpecExpr>, fuel: nat)
    requires
        es.len() == 3,
        es[0] == SpecExpr::Symbol("define"@),
        es[1] is Symbol,
        scope < env.len(),
    ensures
        ({
            let (env1, r0) = spec_eval(env, scope, es[2], fuel);
            spec_eval(env, scope, SpecExpr::List(es), fuel) == match r0 {
                Ok(v) => (
                    if scope < env1.len() {
                        env1.update(
                            scope as int,
                            SpecScope {
                                bindings: env1[scope as int].bindings.insert(es[1]->Symbol_0, v),
                                parent: env1[scope as int].parent,
                            },
                        )
                    } else {
                        env1
                    },
                    Ok::<SpecVal, EvalError>(v),
                ),
                Err(e) => (env1, Err::<SpecVal, EvalError>(e)),
            }
        }),
{
    lemma_special_names_distinct();
}

/// Application, spelled out: the head symbol must resolve to a
/// closure; the arguments are evaluated in the caller's scope; and
/// the body runs in a fresh frame whose parent is the scope the
/// closure captured, looked up in the store as it stands at call time
/// — the caller's scope plays no part in resolving the body's names.
pub proof fn lemma_apply_form(
    env: Seq<SpecScope>,
    scope: nat,
    name: Seq<char>,
    es: Seq<SpecExpr>,
    fuel: nat,
)
    requires
        es.len() >= 1,
        es[0] == SpecExpr::Symbol(name),
        name != "if"@,
        name != "let"@,
        name != "define"@,
        name != "lambda"@,
        name != "+"@,
    ensures
        spec_eval(env, scope, SpecExpr::List(es), fuel) == spec_eval_apply(
            env,
            scope,
            name,
            es,
            fuel,
        ),
        ({
            match spec_lookup(env, scope as int, name) {
                None => spec_eval_apply(env, scope, name, es, fuel) == (
                    env,
                    Err::<SpecVal, EvalError>(EvalError::UnboundName),
                ),
                Some(f) => f matches SpecVal::Closure { env: cenv, params, body } ==> ({
                    let (env1, rr) = spec_eval_args(
                        env,
                        scope,
                        es.subrange(1, es.len() as int),
                        fuel,
                    );
                    spec_eval_apply(env, scope, name, es, fuel) == match rr {
                        Ok(vs) => if vs.len() != params.len() {
                            (env1, Err::<SpecVal, EvalError>(EvalError::ArityError))
                        } else if fuel == 0 {
                            (env1, Err::<SpecVal, EvalError>(EvalError::DepthLimit))
                        } else {
                            spec_eval(
                                env1.push(
                                    SpecScope {
                                        bindings: bind_params(params, vs),
                                        parent: Some(cenv),
                                    },
                                ),
                                env1.len(),
                                body,
                                (fuel - 1) as nat,
                            )
                        },
                        Err(e) => (env1, Err::<SpecVal, EvalError>(e)),
                    }
                }),
            }
        }),
{
}

/// What `(+ ...)` does, spelled out: the operands are evaluated left
/// to right, and then `spec_add` decides — any count but two is an
/// arity error, two operands with a non-integer among them is a type
/// error, and the two are distinct from each other and from an
/// unbound-name failure.
pub proof fn lemma_add_form(env: Seq<SpecScope>, scope: nat, es: Seq<SpecExpr>, fuel: nat)
    requires
        es.len() >= 1,
        es[0] == SpecExpr::Symbol("+"@),
    ensures
        ({
            let (env1, rr) = spec_eval_args(env, scope, es.subrange(1, es.len() as int), fuel);
            spec_eval(env, scope, SpecExpr::List(es), fuel) == match rr {
                Ok(vs) => (env1, spec_add(vs)),
                Err(e) => (env1, Err::<SpecVal, EvalError>(e)),
            }
        }),
        forall|vs: Seq<SpecVal>| vs.len() != 2 ==> #[trigger] spec_add(vs) == Err::<
            SpecVal,
            EvalError,
        >(EvalError::ArityError),
        forall|vs: Seq<SpecVal>|
            vs.len() == 2 && !(vs[0] is Int && vs[1] is Int) ==> #[trigger] spec_add(vs) == Err::<
                SpecVal,
                EvalError,
            >(EvalError::TypeError),
        EvalError::ArityError != EvalError::TypeError,
        EvalError::ArityError != EvalError::UnboundName,
        EvalError::TypeError != EvalError::UnboundName,
{
    lemma_special_names_distinct();
}

/// `if` evaluates its condition and then exactly one branch.  When
/// the condition comes out truthy, the untaken alternative has no
/// bearing on the result — two `if` forms differing only there mean
/// the same — and symmetrically when it comes out falsy.
pub proof fn lemma_if_one_branch(
    env: Seq<SpecScope>,
    scope: nat,
    c: SpecExpr,
    t: SpecExpr,
    alt1: SpecExpr,
    alt2: SpecExpr,
    fuel: nat,
)
    ensures
        ({
            let (env1, rc) = spec_eval(env, scope, c, fuel);
            &&& (rc matches Ok(v) && truthy(v) ==> {
                &&& spec_eval(
                    env,
                    scope,
                    SpecExpr::List(seq![SpecExpr::Symbol("if"@), c, t, alt1]),
                    fuel,
                ) == spec_eval(env1, scope, t, fuel)
                &&& spec_eval(
                    env,
                    scope,
                    SpecExpr::List(seq![SpecExpr::Symbol("if"@), c, t, alt1]),
                    fuel,
                ) == spec_eval(
                    env,
                    scope,
                    SpecExpr::List(seq![SpecExpr::Symbol("if"@), c, t, alt2]),
                    fuel,
                )
            })
            &&& (rc matches Ok(v) && !truthy(v) ==> spec_eval(
                env,
                scope,
                SpecExpr::List(seq![SpecExpr::Symbol("if"@), c, alt1, t]),
                fuel,
            ) == spec_eval(
                env,
                scope,
                SpecExpr::List(seq![SpecExpr::Symbol("if"@), c, alt2, t]),
                fuel,
            ))
        }),
{
    let ghost es1 = seq![SpecExpr::Symbol("if"@), c, t, alt1];
    let ghost es2 = seq![SpecExpr::Symbol("if"@), c, t, alt2];
    let ghost fs1 = seq![SpecExpr::Symbol("if"@), c, alt1, t];
    let ghost fs2 = seq![SpecExpr::Symbol("if"@), c, alt2, t];
    assert(es1.len() == 4 && es1[0] == SpecExpr::Symbol("if"@) && es1[1] == c && es1[2] == t
        && es1[3] == alt1);
    assert(es2.len() == 4 && es2[0] == SpecExpr::Symbol("if"@) && es2[1] == c && es2[2] == t
        && es2[3] == alt2);
    assert(fs1.len() == 4 && fs1[0] == SpecExpr::Symbol("if"@) && fs1[1] == c && fs1[2] == alt1
        && fs1[3] == t);
    assert(fs2.len() == 4 && fs2[0] == SpecExpr::Symbol("if"@) && fs2[1] == c && fs2[2] == alt2
        && fs2[3] == t);
}

} // verus!
