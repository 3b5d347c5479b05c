use lox_core::ast::Ast;
use lox_core::ast::Literal;
use lox_core::env::EnvStore;
use lox_core::interp::TreeWalk;
use lox_core::resolver::Resolver;
use lox_core::token::Token;
use lox_core::token::TokenType;
use lox_core::value::RuntimeError;
use lox_core::value::Value;

fn ident(s: &str) -> Token {
    Token::textual(s.to_string(), 1, 0)
}

fn kw(t: TokenType, s: &str) -> Token {
    Token::symbol(t, s.to_string(), 1, 0)
}

fn num(x: f64) -> Value {
    Value::Number(x.to_bits())
}

fn as_number(v: &Value) -> f64 {
    match v {
        Value::Number(b) => f64::from_bits(*b),
        other => panic!("expected a number, got {:?}", other),
    }
}

#[test]
fn define_overwrites_in_the_current_frame() {
    let mut envs = EnvStore::new();
    let g = envs.new_frame();
    envs.define(g, "x", num(1.0));
    envs.define(g, "x", num(2.0));
    assert_eq!(as_number(&envs.get(g, "x").unwrap()), 2.0);
}

#[test]
fn get_walks_the_chain_and_get_at_is_indexed() {
    let mut envs = EnvStore::new();
    let g = envs.new_frame();
    let inner = envs.new_frame_with_enclosing(g);
    let innermost = envs.new_frame_with_enclosing(inner);
    envs.define(g, "x", num(10.0));
    envs.define(innermost, "x", num(30.0));
    // The chain walk finds the innermost binding.
    assert_eq!(as_number(&envs.get(innermost, "x").unwrap()), 30.0);
    // Distance 0 is the frame itself, distance 2 the global frame.
    assert_eq!(as_number(&envs.get_at(innermost, "x", 0).unwrap()), 30.0);
    assert!(envs.get_at(innermost, "x", 1).is_none());
    assert_eq!(as_number(&envs.get_at(innermost, "x", 2).unwrap()), 10.0);
    assert!(envs.get_at(innermost, "x", 3).is_none());
}

#[test]
fn assign_mutates_the_owning_frame_in_place() {
    let mut envs = EnvStore::new();
    let g = envs.new_frame();
    let inner = envs.new_frame_with_enclosing(g);
    envs.define(g, "x", num(1.0));
    assert!(envs.assign(inner, ident("x"), num(5.0)).is_ok());
    // The global frame was mutated; the inner frame still has no binding.
    assert_eq!(as_number(&envs.get_at(inner, "x", 1).unwrap()), 5.0);
    assert!(envs.get_at(inner, "x", 0).is_none());
}

#[test]
fn assigning_an_absent_name_is_undefined_variable() {
    let mut envs = EnvStore::new();
    let g = envs.new_frame();
    let r = envs.assign(g, ident("missing"), num(1.0));
    match r {
        Err(RuntimeError::UndefinedVariable { token }) => assert_eq!(token.lexeme, "missing"),
        other => panic!("expected UndefinedVariable, got {:?}", other),
    }
}

#[test]
fn assign_at_lands_on_the_indexed_frame() {
    let mut envs = EnvStore::new();
    let g = envs.new_frame();
    let inner = envs.new_frame_with_enclosing(g);
    envs.define(g, "x", num(1.0));
    envs.assign_at(inner, ident("x"), num(7.0), 1);
    assert_eq!(as_number(&envs.get_at(inner, "x", 1).unwrap()), 7.0);
    // A chain shorter than the distance changes nothing.
    envs.assign_at(inner, ident("x"), num(9.0), 5);
    assert_eq!(as_number(&envs.get_at(inner, "x", 1).unwrap()), 7.0);
}

#[test]
fn two_frames_share_a_mutated_enclosing_frame() {
    // Two closures over the same frame observe each other's assignment:
    // the frame is aliased, never copied.
    let mut envs = EnvStore::new();
    let shared = envs.new_frame();
    let left = envs.new_frame_with_enclosing(shared);
    let right = envs.new_frame_with_enclosing(shared);
    envs.define(shared, "n", num(0.0));
    assert!(envs.assign(left, ident("n"), num(4.0)).is_ok());
    assert_eq!(as_number(&envs.get(right, "n").unwrap()), 4.0);
}

#[test]
fn comparison_operators_cover_both_directions() {
    let tw = TreeWalk::new();
    let ast = Ast::new();
    let cases: Vec<(TokenType, &str, f64, f64, bool)> = vec![
        (TokenType::Greater, ">", 2.0, 1.0, true),
        (TokenType::Greater, ">", 1.0, 2.0, false),
        (TokenType::GreaterEq, ">=", 2.0, 2.0, true),
        (TokenType::GreaterEq, ">=", 1.0, 2.0, false),
        (TokenType::Less, "<", 1.0, 2.0, true),
        (TokenType::Less, "<", 2.0, 1.0, false),
        (TokenType::LessEq, "<=", 2.0, 2.0, true),
        (TokenType::LessEq, "<=", 2.0, 1.0, false),
        (TokenType::Equal, "==", 2.0, 2.0, true),
        (TokenType::Equal, "==", 2.0, 3.0, false),
        (TokenType::NotEqual, "!=", 2.0, 3.0, true),
        (TokenType::NotEqual, "!=", 2.0, 2.0, false),
    ];
    for (t, lex, l, r, expected) in cases {
        let got = tw.apply_binary(&ast, &kw(t, lex), num(l), num(r)).unwrap();
        match got {
            Value::Bool(b) => assert_eq!(b, expected, "{l} {lex} {r}"),
            other => panic!("expected a bool, got {:?}", other),
        }
    }
}

#[test]
fn the_clock_intrinsic_yields_a_positive_number() {
    // print clock() > 0;
    let mut ast = Ast::new();
    let e_clock = ast.variable(ident("clock"));
    let e_call = ast.call(e_clock, kw(TokenType::RightParen, ")"), vec![]);
    let e_zero = ast.literal(Literal::Number(0.0f64.to_bits()));
    let e_cmp = ast.binary(e_call, kw(TokenType::Greater, ">"), e_zero);
    let s = ast.print_stmt(kw(TokenType::Print, "print"), e_cmp);
    let roots = vec![s];
    let mut r = Resolver::new();
    r.resolve(&ast, &roots);
    assert!(!r.has_err());
    let mut tw = TreeWalk::new();
    tw.interpret(&ast, &r.distances, s, 1000).unwrap();
    assert_eq!(tw.take_output(), vec!["true"]);
}

#[test]
fn calling_the_clock_with_arguments_is_refused() {
    // clock(1);
    let mut ast = Ast::new();
    let e_clock = ast.variable(ident("clock"));
    let e_one = ast.literal(Literal::Number(1.0f64.to_bits()));
    let e_call = ast.call(e_clock, kw(TokenType::RightParen, ")"), vec![e_one]);
    let s = ast.expr_stmt(e_call);
    let roots = vec![s];
    let mut r = Resolver::new();
    r.resolve(&ast, &roots);
    let mut tw = TreeWalk::new();
    let res = tw.interpret(&ast, &r.distances, s, 1000);
    match res {
        Err(RuntimeError::InvalidArgumentCount { expected, actual, .. }) => {
            assert_eq!(expected, 0);
            assert_eq!(actual, 1);
        }
        other => panic!("expected InvalidArgumentCount, got {:?}", other),
    }
}
