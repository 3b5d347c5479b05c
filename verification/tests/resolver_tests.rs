use lox_core::ast::Ast;
use lox_core::ast::Literal;
use lox_core::resolver::Resolver;
use lox_core::resolver::StaticErrorKind;
use lox_core::token::Token;
use lox_core::token::TokenType;

fn ident(s: &str) -> Token {
    Token::textual(s.to_string(), 1, 0)
}

fn kw(t: TokenType, s: &str) -> Token {
    Token::symbol(t, s.to_string(), 1, 0)
}

fn num(ast: &mut Ast, x: f64) -> usize {
    ast.literal(Literal::Number(x.to_bits()))
}

fn kinds(r: &Resolver) -> Vec<StaticErrorKind> {
    r.errors.iter().map(|e| e.kind).collect()
}

#[test]
fn distance_counts_enclosing_blocks() {
    // { var a = 1; { print a; } }
    let mut ast = Ast::new();
    let e_one = num(&mut ast, 1.0);
    let s_decl = ast.var_decl(ident("a"), Some(e_one));
    let e_read = ast.variable(ident("a"));
    let s_print = ast.print_stmt(kw(TokenType::Print, "print"), e_read);
    let s_inner = ast.block_stmt(vec![s_print]);
    let s_outer = ast.block_stmt(vec![s_decl, s_inner]);
    let mut r = Resolver::new();
    r.resolve(&ast, &vec![s_outer]);
    assert!(!r.has_err());
    assert_eq!(r.distances[e_read], Some(1));
}

#[test]
fn distance_zero_in_the_declaring_block() {
    // { var a = 1; print a; }
    let mut ast = Ast::new();
    let e_one = num(&mut ast, 1.0);
    let s_decl = ast.var_decl(ident("a"), Some(e_one));
    let e_read = ast.variable(ident("a"));
    let s_print = ast.print_stmt(kw(TokenType::Print, "print"), e_read);
    let s_outer = ast.block_stmt(vec![s_decl, s_print]);
    let mut r = Resolver::new();
    r.resolve(&ast, &vec![s_outer]);
    assert!(!r.has_err());
    assert_eq!(r.distances[e_read], Some(0));
}

#[test]
fn top_level_references_stay_global() {
    // var a = 1; print a;
    let mut ast = Ast::new();
    let e_one = num(&mut ast, 1.0);
    let s_decl = ast.var_decl(ident("a"), Some(e_one));
    let e_read = ast.variable(ident("a"));
    let s_print = ast.print_stmt(kw(TokenType::Print, "print"), e_read);
    let mut r = Resolver::new();
    r.resolve(&ast, &vec![s_decl, s_print]);
    assert!(!r.has_err());
    assert_eq!(r.distances[e_read], None);
}

#[test]
fn redeclaration_in_one_block_is_an_error() {
    // { var x = 1; var x = 2; }
    let mut ast = Ast::new();
    let e1 = num(&mut ast, 1.0);
    let s1 = ast.var_decl(ident("x"), Some(e1));
    let e2 = num(&mut ast, 2.0);
    let s2 = ast.var_decl(ident("x"), Some(e2));
    let b = ast.block_stmt(vec![s1, s2]);
    let mut r = Resolver::new();
    r.resolve(&ast, &vec![b]);
    assert!(r.has_err());
    assert_eq!(kinds(&r), vec![StaticErrorKind::DuplicateDeclaration]);
}

#[test]
fn redeclaration_in_a_nested_block_is_legal() {
    // { var x = 1; { var x = 2; } }
    let mut ast = Ast::new();
    let e1 = num(&mut ast, 1.0);
    let s1 = ast.var_decl(ident("x"), Some(e1));
    let e2 = num(&mut ast, 2.0);
    let s2 = ast.var_decl(ident("x"), Some(e2));
    let inner = ast.block_stmt(vec![s2]);
    let outer = ast.block_stmt(vec![s1, inner]);
    let mut r = Resolver::new();
    r.resolve(&ast, &vec![outer]);
    assert!(!r.has_err());
}

#[test]
fn reading_own_initializer_is_an_error() {
    // { var x = x; }
    let mut ast = Ast::new();
    let e_read = ast.variable(ident("x"));
    let s = ast.var_decl(ident("x"), Some(e_read));
    let b = ast.block_stmt(vec![s]);
    let mut r = Resolver::new();
    r.resolve(&ast, &vec![b]);
    assert!(r.has_err());
    assert_eq!(kinds(&r), vec![StaticErrorKind::ReadOwnInitializer]);
}

#[test]
fn return_outside_any_function_is_an_error() {
    let mut ast = Ast::new();
    let s = ast.return_stmt(kw(TokenType::Return, "return"), None);
    let mut r = Resolver::new();
    r.resolve(&ast, &vec![s]);
    assert_eq!(kinds(&r), vec![StaticErrorKind::ReturnOutsideFunction]);
}

#[test]
fn returning_a_value_from_an_initializer_is_an_error() {
    // class C { init() { return 1; } }
    let mut ast = Ast::new();
    let e1 = num(&mut ast, 1.0);
    let s_ret = ast.return_stmt(kw(TokenType::Return, "return"), Some(e1));
    let f_init = ast.fun(ident("init"), vec![], vec![s_ret]);
    let s_class = ast.class_decl(ident("C"), None, vec![f_init]);
    let mut r = Resolver::new();
    r.resolve(&ast, &vec![s_class]);
    assert_eq!(kinds(&r), vec![StaticErrorKind::ReturnFromInitializer]);
}

#[test]
fn bare_return_from_an_initializer_is_legal() {
    // class C { init() { return; } }
    let mut ast = Ast::new();
    let s_ret = ast.return_stmt(kw(TokenType::Return, "return"), None);
    let f_init = ast.fun(ident("init"), vec![], vec![s_ret]);
    let s_class = ast.class_decl(ident("C"), None, vec![f_init]);
    let mut r = Resolver::new();
    r.resolve(&ast, &vec![s_class]);
    assert!(!r.has_err());
}

#[test]
fn this_outside_a_class_is_an_error() {
    let mut ast = Ast::new();
    let e = ast.this(kw(TokenType::This, "this"));
    let s = ast.expr_stmt(e);
    let mut r = Resolver::new();
    r.resolve(&ast, &vec![s]);
    assert_eq!(kinds(&r), vec![StaticErrorKind::ThisOutsideClass]);
}

#[test]
fn super_outside_a_class_is_an_error() {
    let mut ast = Ast::new();
    let e = ast.super_(kw(TokenType::Super, "super"), ident("m"));
    let s = ast.expr_stmt(e);
    let mut r = Resolver::new();
    r.resolve(&ast, &vec![s]);
    assert_eq!(kinds(&r), vec![StaticErrorKind::SuperOutsideClass]);
}

#[test]
fn super_without_a_superclass_is_an_error() {
    // class C { m() { super.m(); } }
    let mut ast = Ast::new();
    let e_super = ast.super_(kw(TokenType::Super, "super"), ident("m"));
    let paren = kw(TokenType::RightParen, ")");
    let e_call = ast.call(e_super, paren, vec![]);
    let s_call = ast.expr_stmt(e_call);
    let f_m = ast.fun(ident("m"), vec![], vec![s_call]);
    let s_class = ast.class_decl(ident("C"), None, vec![f_m]);
    let mut r = Resolver::new();
    r.resolve(&ast, &vec![s_class]);
    assert_eq!(kinds(&r), vec![StaticErrorKind::SuperWithoutSuperclass]);
}

#[test]
fn a_class_cannot_inherit_from_itself() {
    // class C < C {}
    let mut ast = Ast::new();
    let e_sup = ast.variable(ident("C"));
    let s_class = ast.class_decl(ident("C"), Some(e_sup), vec![]);
    let mut r = Resolver::new();
    r.resolve(&ast, &vec![s_class]);
    assert!(r.has_err());
    assert!(kinds(&r).contains(&StaticErrorKind::SelfInheritance));
}

#[test]
fn method_bodies_see_this_at_the_right_distance() {
    // class C { m() { print this; } }
    let mut ast = Ast::new();
    let e_this = ast.this(kw(TokenType::This, "this"));
    let s_print = ast.print_stmt(kw(TokenType::Print, "print"), e_this);
    let f_m = ast.fun(ident("m"), vec![], vec![s_print]);
    let s_class = ast.class_decl(ident("C"), None, vec![f_m]);
    let mut r = Resolver::new();
    r.resolve(&ast, &vec![s_class]);
    assert!(!r.has_err());
    // "this" sits one scope outside the method-body scope.
    assert_eq!(r.distances[e_this], Some(1));
}

#[test]
fn shadowing_changes_the_recorded_distance() {
    // { var a = 1; { var a = 2; print a; } }
    let mut ast = Ast::new();
    let e1 = num(&mut ast, 1.0);
    let s1 = ast.var_decl(ident("a"), Some(e1));
    let e2 = num(&mut ast, 2.0);
    let s2 = ast.var_decl(ident("a"), Some(e2));
    let e_read = ast.variable(ident("a"));
    let s_print = ast.print_stmt(kw(TokenType::Print, "print"), e_read);
    let inner = ast.block_stmt(vec![s2, s_print]);
    let outer = ast.block_stmt(vec![s1, inner]);
    let mut r = Resolver::new();
    r.resolve(&ast, &vec![outer]);
    assert!(!r.has_err());
    assert_eq!(r.distances[e_read], Some(0));
}
