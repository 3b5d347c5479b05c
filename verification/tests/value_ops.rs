use lox_core::ast::Ast;
use lox_core::ast::Literal;
use lox_core::interp::TreeWalk;
use lox_core::numbers::number_text;
use lox_core::token::identifier_type;
use lox_core::token::Token;
use lox_core::token::TokenLiteral;
use lox_core::token::TokenType;
use lox_core::value::is_true;
use lox_core::value::FunctionType;
use lox_core::value::RuntimeError;
use lox_core::value::Value;

fn op(t: TokenType, s: &str) -> Token {
    Token::symbol(t, s.to_string(), 1, 0)
}

fn num(x: f64) -> Value {
    Value::Number(x.to_bits())
}

fn as_number(v: &Value) -> f64 {
    match v {
        Value::Number(b) => f64::from_bits(*b),
        _ => panic!("expected a number, got {:?}", v),
    }
}

#[test]
fn truthiness_only_nil_and_false_are_falsy() {
    assert!(!is_true(&Value::Nil));
    assert!(!is_true(&Value::Bool(false)));
    assert!(is_true(&Value::Bool(true)));
    assert!(is_true(&num(0.0)));
    assert!(is_true(&Value::Str(String::new())));
    assert!(is_true(&num(-1.5)));
}

#[test]
fn number_plus_string_is_incompatible_operand_type() {
    let tw = TreeWalk::new();
    let ast = Ast::new();
    let r = tw.apply_binary(&ast, &op(TokenType::Plus, "+"), num(1.0), Value::Str("a".to_string()));
    match r {
        Err(RuntimeError::IncompatibleOperandType { message, .. }) => {
            assert_eq!(message, "Operands must be numbers");
        }
        other => panic!("expected IncompatibleOperandType, got {:?}", other),
    }
}

#[test]
fn string_plus_string_concatenates() {
    let tw = TreeWalk::new();
    let ast = Ast::new();
    let r = tw
        .apply_binary(
            &ast,
            &op(TokenType::Plus, "+"),
            Value::Str("a".to_string()),
            Value::Str("b".to_string()),
        )
        .unwrap();
    match r {
        Value::Str(s) => assert_eq!(s, "ab"),
        other => panic!("expected a string, got {:?}", other),
    }
}

#[test]
fn number_never_equals_string() {
    let tw = TreeWalk::new();
    let ast = Ast::new();
    let r = tw
        .apply_binary(&ast, &op(TokenType::Equal, "=="), num(1.0), Value::Str("1".to_string()))
        .unwrap();
    match r {
        Value::Bool(b) => assert!(!b),
        other => panic!("expected a bool, got {:?}", other),
    }
}

#[test]
fn arithmetic_follows_ieee_semantics() {
    let tw = TreeWalk::new();
    let ast = Ast::new();
    let plus = op(TokenType::Plus, "+");
    let sum = tw.apply_binary(&ast, &plus, num(1.5), num(2.25)).unwrap();
    assert_eq!(as_number(&sum), 3.75);
    let star = op(TokenType::Star, "*");
    let product = tw.apply_binary(&ast, &star, num(6.0), num(7.0)).unwrap();
    assert_eq!(as_number(&product), 42.0);
    let div = op(TokenType::Div, "/");
    let inf = tw.apply_binary(&ast, &div, num(1.0), num(0.0)).unwrap();
    assert!(as_number(&inf).is_infinite());
    let less = op(TokenType::Less, "<");
    match tw.apply_binary(&ast, &less, num(1.0), num(2.0)).unwrap() {
        Value::Bool(b) => assert!(b),
        other => panic!("expected a bool, got {:?}", other),
    }
}

#[test]
fn unary_minus_needs_a_number() {
    let tw = TreeWalk::new();
    let minus = op(TokenType::Minus, "-");
    match tw.apply_unary(&minus, num(2.5)).unwrap() {
        Value::Number(b) => assert_eq!(f64::from_bits(b), -2.5),
        other => panic!("expected a number, got {:?}", other),
    }
    match tw.apply_unary(&minus, Value::Str("x".to_string())) {
        Err(RuntimeError::IncompatibleOperandType { message, .. }) => {
            assert_eq!(message, "Operand must be a number");
        }
        other => panic!("expected IncompatibleOperandType, got {:?}", other),
    }
}

#[test]
fn number_text_is_shortest_round_trip() {
    assert_eq!(number_text(1.0f64.to_bits()), "1");
    assert_eq!(number_text(2.0f64.to_bits()), "2");
    assert_eq!(number_text(0.5f64.to_bits()), "0.5");
    assert_eq!(number_text(0.1f64.to_bits()), "0.1");
    assert_eq!(number_text(42.0f64.to_bits()), "42");
    assert_eq!(number_text((-2.5f64).to_bits()), "-2.5");
}

#[test]
fn number_text_uses_plain_positional_notation() {
    assert_eq!(number_text(10000.0f64.to_bits()), "10000");
    assert_eq!(number_text(1230000.0f64.to_bits()), "1230000");
    assert_eq!(number_text(0.0001f64.to_bits()), "0.0001");
    assert_eq!(number_text(1e21f64.to_bits()), "1000000000000000000000");
    assert_eq!(number_text((-10000.0f64).to_bits()), "-10000");
}

#[test]
fn number_text_pads_shortest_digits_for_inexact_integers() {
    // Values whose nearest binary64 is not the written integer still print
    // the shortest round-tripping digits, never the exact expansion.
    assert_eq!(number_text(1e23f64.to_bits()), "100000000000000000000000");
    assert_eq!(number_text(1.23e20f64.to_bits()), "123000000000000000000");
    assert_eq!(number_text((-1e23f64).to_bits()), "-100000000000000000000000");
    assert_eq!(
        number_text(123456789012345678901.0f64.to_bits()),
        format!("{}", 123456789012345678901.0f64)
    );
}

#[test]
fn number_text_spells_special_values_like_the_host() {
    assert_eq!(number_text(f64::INFINITY.to_bits()), "inf");
    assert_eq!(number_text(f64::NEG_INFINITY.to_bits()), "-inf");
    assert_eq!(number_text(f64::NAN.to_bits()), "NaN");
}

#[test]
fn identifier_type_knows_every_reserved_word() {
    assert_eq!(identifier_type("and"), TokenType::And);
    assert_eq!(identifier_type("class"), TokenType::Class);
    assert_eq!(identifier_type("else"), TokenType::Else);
    assert_eq!(identifier_type("false"), TokenType::False);
    assert_eq!(identifier_type("for"), TokenType::For);
    assert_eq!(identifier_type("fun"), TokenType::Fun);
    assert_eq!(identifier_type("if"), TokenType::If);
    assert_eq!(identifier_type("nil"), TokenType::Nil);
    assert_eq!(identifier_type("or"), TokenType::Or);
    assert_eq!(identifier_type("print"), TokenType::Print);
    assert_eq!(identifier_type("return"), TokenType::Return);
    assert_eq!(identifier_type("super"), TokenType::Super);
    assert_eq!(identifier_type("this"), TokenType::This);
    assert_eq!(identifier_type("true"), TokenType::True);
    assert_eq!(identifier_type("var"), TokenType::Var);
    assert_eq!(identifier_type("while"), TokenType::While);
    assert_eq!(identifier_type("clock"), TokenType::Identifier);
}

#[test]
fn string_token_strips_its_quotes() {
    let t = Token::string("\"hello\"".to_string(), 3, 7);
    assert_eq!(t.token_type, TokenType::String);
    assert_eq!(t.lexeme, "\"hello\"");
    match t.literal {
        TokenLiteral::Str(s) => assert_eq!(s, "hello"),
        other => panic!("expected a string literal, got {:?}", other),
    }
    assert_eq!(t.pos.line, 3);
    assert_eq!(t.pos.offset, 7);
}

#[test]
fn callable_kinds_have_their_words() {
    assert_eq!(FunctionType::Function.text(), "function");
    assert_eq!(FunctionType::Method.text(), "method");
}

#[test]
fn literal_conversion_keeps_the_payload() {
    match Value::from_literal(&Literal::Number(2.5f64.to_bits())) {
        Value::Number(b) => assert_eq!(f64::from_bits(b), 2.5),
        other => panic!("expected a number, got {:?}", other),
    }
    match Value::from_literal(&Literal::Str("hi".to_string())) {
        Value::Str(s) => assert_eq!(s, "hi"),
        other => panic!("expected a string, got {:?}", other),
    }
    assert!(matches!(Value::from_literal(&Literal::Nil), Value::Nil));
}
