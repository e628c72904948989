use sexpr::lexer::{tokenize, LexError};
use sexpr::parser::{read, ParseError};
use sexpr::types::{Expression, Token};
use sexpr::{eval, Environment, EvalError, Value};

fn run(env: &mut Environment, text: &str) -> Result<Value, EvalError> {
    let expr = read(tokenize(text).unwrap()).unwrap();
    eval(env, &expr)
}

#[test]
fn test_brackets() {
    assert_eq!(
        tokenize("(( () () ))"),
        Ok(vec![
            Token::LBracket,
            Token::LBracket,
            Token::LBracket,
            Token::RBracket,
            Token::LBracket,
            Token::RBracket,
            Token::RBracket,
            Token::RBracket,
        ])
    )
}

#[test]
fn test_numbers() {
    assert_eq!(tokenize("1"), Ok(vec![Token::Int(1)]));
    assert_eq!(tokenize("10"), Ok(vec![Token::Int(10)]));
    assert_eq!(tokenize("01"), Ok(vec![Token::Int(1)]));
    assert_eq!(tokenize("-1"), Ok(vec![Token::Int(-1)]));
    assert_eq!(tokenize("-10"), Ok(vec![Token::Int(-10)]));
    assert_eq!(tokenize("-01"), Ok(vec![Token::Int(-1)]));
}

#[test]
fn lexer_test_symbols() {
    assert_eq!(
        tokenize("symbol"),
        Ok(vec![Token::Symbol(String::from("symbol"))])
    );
}

#[test]
fn test_add() {
    let expr = read(tokenize("(+ 1 1)").unwrap()).unwrap();
    let mut env = Environment::new();

    assert_eq!(eval(&mut env, &expr).unwrap(), Value::Int(2))
}

#[test]
fn test_let() {
    let expr = read(tokenize("(let ((a 1) (b 2)) (+ a b))").unwrap()).unwrap();
    let mut env = Environment::new();

    assert_eq!(eval(&mut env, &expr).unwrap(), Value::Int(3));
}

#[test]
fn test_symbol() {
    let tokens = tokenize("symbol").unwrap();

    assert_eq!(
        read(tokens).unwrap(),
        Expression::Symbol(String::from("symbol"))
    )
}

#[test]
fn test_simple() {
    let tokens = tokenize("(define circle-area (lambda (r) (* pi (* r r))))").unwrap();

    assert_eq!(
        read(tokens).unwrap(),
        Expression::List(vec![
            Expression::Symbol(String::from("define")),
            Expression::Symbol(String::from("circle-area")),
            Expression::List(vec![
                Expression::Symbol(String::from("lambda")),
                Expression::List(vec![Expression::Symbol(String::from("r"))]),
                Expression::List(vec![
                    Expression::Symbol(String::from("*")),
                    Expression::Symbol(String::from("pi")),
                    Expression::List(vec![
                        Expression::Symbol(String::from("*")),
                        Expression::Symbol(String::from("r")),
                        Expression::Symbol(String::from("r"))
                    ]),
                ]),
            ])
        ])
    );
}

#[test]
fn leading_zeros_round_trip() {
    assert_eq!(read(tokenize("007").unwrap()).unwrap(), Expression::Int(7));
    assert_eq!(
        read(tokenize("-007").unwrap()).unwrap(),
        Expression::Int(-7)
    );
}

#[test]
fn int_bounds() {
    assert_eq!(
        tokenize("9223372036854775807"),
        Ok(vec![Token::Int(i64::MAX)])
    );
    assert_eq!(
        tokenize("-9223372036854775808"),
        Ok(vec![Token::Int(i64::MIN)])
    );
    assert_eq!(
        tokenize("9223372036854775808"),
        Err(LexError::NumberOverflow)
    );
    assert_eq!(
        tokenize("-9223372036854775809"),
        Err(LexError::NumberOverflow)
    );
}

#[test]
fn string_literals() {
    assert_eq!(
        tokenize("\"hello world\""),
        Ok(vec![Token::Str(String::from("hello world"))])
    );
    assert_eq!(tokenize("\"open"), Err(LexError::UnterminatedString));
    assert_eq!(tokenize("'x"), Err(LexError::CharNotSupported));
    assert_eq!(tokenize("A"), Err(LexError::UnscannableChar));
}

#[test]
fn minus_alone_is_a_symbol() {
    assert_eq!(tokenize("-"), Ok(vec![Token::Symbol(String::from("-"))]));
    assert_eq!(
        tokenize("- 1"),
        Ok(vec![Token::Symbol(String::from("-")), Token::Int(1)])
    );
}

#[test]
fn reader_errors() {
    assert_eq!(read(vec![]), Err(ParseError::EmptyInput));
    assert_eq!(
        read(tokenize(")").unwrap()),
        Err(ParseError::MismatchedCloseParen)
    );
    assert_eq!(read(tokenize("(a (b c)").unwrap()), Err(ParseError::UnexpectedEof));
}

#[test]
fn reader_takes_one_form() {
    // Trailing tokens past the first complete form are not an error.
    assert_eq!(
        read(tokenize("a b c").unwrap()).unwrap(),
        Expression::Symbol(String::from("a"))
    );
    assert_eq!(
        read(tokenize("() x").unwrap()).unwrap(),
        Expression::List(vec![])
    );
}

#[test]
fn string_expression_evaluates_to_itself() {
    let mut env = Environment::new();
    assert_eq!(
        run(&mut env, "\"hi\"").unwrap(),
        Value::Str(String::from("hi"))
    );
}

#[test]
fn let_binding_not_visible_after() {
    let mut env = Environment::new();
    assert_eq!(
        run(&mut env, "(let ((a 1) (b 2)) (+ a b))").unwrap(),
        Value::Int(3)
    );
    // The names bound by `let` died with its scope.
    assert_eq!(run(&mut env, "a"), Err(EvalError::UnboundName));
    assert_eq!(run(&mut env, "b"), Err(EvalError::UnboundName));
}

#[test]
fn let_bindings_are_non_recursive() {
    // `a` in the second binding resolves outside the `let`, where it
    // is not defined, so the form fails rather than seeing `(a 1)`.
    let mut env = Environment::new();
    assert_eq!(
        run(&mut env, "(let ((a 1) (atwo a)) atwo)"),
        Err(EvalError::UnboundName)
    );
    // With an outer `a` in place, the second binding sees that one.
    let mut env2 = Environment::new();
    assert_eq!(run(&mut env2, "(define a 5)").unwrap(), Value::Int(5));
    assert_eq!(
        run(&mut env2, "(let ((a 1) (atwo a)) atwo)").unwrap(),
        Value::Int(5)
    );
}

#[test]
fn closures_capture_by_reference() {
    // `y` is defined only after `f`, yet the call finds it, because
    // the closure shares the scope it captured rather than copying it.
    let mut env = Environment::new();
    run(&mut env, "(define f (lambda (x) (+ x y)))").unwrap();
    assert_eq!(run(&mut env, "(define y 10)").unwrap(), Value::Int(10));
    assert_eq!(run(&mut env, "(f 5)").unwrap(), Value::Int(15));
}

#[test]
fn recursive_closure_through_define() {
    let mut env = Environment::new();
    run(
        &mut env,
        "(define down (lambda (n) (if n (down (+ n -1)) n)))",
    )
    .unwrap();
    assert_eq!(run(&mut env, "(down 4)").unwrap(), Value::Int(0));
}

#[test]
fn arity_and_type_errors_are_distinct() {
    let mut env = Environment::new();
    assert_eq!(run(&mut env, "(+ 1 \"a\")"), Err(EvalError::TypeError));
    assert_eq!(run(&mut env, "(+ 1)"), Err(EvalError::ArityError));
    assert_eq!(run(&mut env, "(+ 1 2 3)"), Err(EvalError::ArityError));
    assert_ne!(Err::<Value, _>(EvalError::TypeError), Err(EvalError::UnboundName));
    assert_ne!(Err::<Value, _>(EvalError::ArityError), Err(EvalError::UnboundName));
    assert_ne!(Err::<Value, _>(EvalError::ArityError), Err(EvalError::TypeError));
}

#[test]
fn closure_arity_is_checked() {
    let mut env = Environment::new();
    run(&mut env, "(define id (lambda (x) x))").unwrap();
    assert_eq!(run(&mut env, "(id 1 2)"), Err(EvalError::ArityError));
    assert_eq!(run(&mut env, "(id)"), Err(EvalError::ArityError));
    assert_eq!(run(&mut env, "(id 9)").unwrap(), Value::Int(9));
}

#[test]
fn if_evaluates_exactly_one_branch() {
    let mut env = Environment::new();
    // Either untaken branch would fail with UnboundName if entered.
    assert_eq!(
        run(&mut env, "(if 1 2 (undefinedname))").unwrap(),
        Value::Int(2)
    );
    assert_eq!(
        run(&mut env, "(if 0 (undefinedname) 3)").unwrap(),
        Value::Int(3)
    );
    // Every value but the integer zero is truthy.
    assert_eq!(run(&mut env, "(if \"\" 1 2)").unwrap(), Value::Int(1));
}

#[test]
fn evaluation_errors() {
    let mut env = Environment::new();
    assert_eq!(run(&mut env, "()"), Err(EvalError::InvalidForm));
    assert_eq!(run(&mut env, "(1 2)"), Err(EvalError::InvalidForm));
    assert_eq!(run(&mut env, "(let ((a)) a)"), Err(EvalError::InvalidForm));
    assert_eq!(run(&mut env, "(lambda (1) 2)"), Err(EvalError::InvalidForm));
    assert_eq!(run(&mut env, "nosuch"), Err(EvalError::UnboundName));
    run(&mut env, "(define x 1)").unwrap();
    assert_eq!(run(&mut env, "(x 2)"), Err(EvalError::NotCallable));
    assert_eq!(
        run(&mut env, "(+ 9223372036854775807 1)"),
        Err(EvalError::Overflow)
    );
}

#[test]
fn runaway_recursion_hits_the_depth_limit() {
    let mut env = Environment::new();
    run(&mut env, "(define spin (lambda (n) (spin n)))").unwrap();
    assert_eq!(run(&mut env, "(spin 1)"), Err(EvalError::DepthLimit));
}

#[test]
fn define_shadows_and_returns_its_value() {
    let mut env = Environment::new();
    assert_eq!(run(&mut env, "(define x 1)").unwrap(), Value::Int(1));
    assert_eq!(run(&mut env, "(define x 2)").unwrap(), Value::Int(2));
    assert_eq!(run(&mut env, "x").unwrap(), Value::Int(2));
}

#[test]
fn expect_helpers() {
    assert_eq!(Expression::Int(5).expect_int(), 5);
    assert_eq!(Expression::Symbol(String::from("s")).expect_symbol(), "s");
    assert_eq!(Expression::Str(String::from("t")).expect_str(), "t");
    let list = Expression::List(vec![Expression::Int(1)]);
    assert_eq!(list.expect_list(), &vec![Expression::Int(1)]);
}
