use lox_core::ast::Ast;
use lox_core::ast::Literal;
use lox_core::interp::TreeWalk;
use lox_core::resolver::Resolver;
use lox_core::token::Token;
use lox_core::token::TokenType;
use lox_core::value::RuntimeError;

const FUEL: u64 = 1_000_000;

fn ident(s: &str) -> Token {
    Token::textual(s.to_string(), 1, 0)
}

fn kw(t: TokenType, s: &str) -> Token {
    Token::symbol(t, s.to_string(), 1, 0)
}

fn num(ast: &mut Ast, x: f64) -> usize {
    ast.literal(Literal::Number(x.to_bits()))
}

fn run(ast: &Ast, roots: &Vec<usize>) -> (Vec<String>, Result<(), RuntimeError>) {
    let mut r = Resolver::new();
    r.resolve(ast, roots);
    assert!(!r.has_err(), "static errors: {:?}", r.errors);
    let mut tw = TreeWalk::new();
    for s in roots.iter() {
        if let Err(e) = tw.interpret(ast, &r.distances, *s, FUEL) {
            return (tw.take_output(), Err(e));
        }
    }
    (tw.take_output(), Ok(()))
}

fn run_ok(ast: &Ast, roots: &Vec<usize>) -> Vec<String> {
    let (out, r) = run(ast, roots);
    if let Err(e) = r {
        panic!("runtime error: {:?}", e);
    }
    out
}

#[test]
fn closures_capture_environment_not_value() {
    // fun make() { var i = 0; fun inc() { i = i + 1; print i; } return inc; }
    // var c = make(); c(); c();
    let mut ast = Ast::new();
    let e_zero = num(&mut ast, 0.0);
    let s_var_i = ast.var_decl(ident("i"), Some(e_zero));
    let e_i = ast.variable(ident("i"));
    let e_one = num(&mut ast, 1.0);
    let e_sum = ast.binary(e_i, kw(TokenType::Plus, "+"), e_one);
    let e_asgn = ast.assign(ident("i"), e_sum);
    let s_asgn = ast.expr_stmt(e_asgn);
    let e_i2 = ast.variable(ident("i"));
    let s_print = ast.print_stmt(kw(TokenType::Print, "print"), e_i2);
    let f_inc = ast.fun(ident("inc"), vec![], vec![s_asgn, s_print]);
    let s_inc = ast.fun_decl(f_inc);
    let e_inc = ast.variable(ident("inc"));
    let s_ret = ast.return_stmt(kw(TokenType::Return, "return"), Some(e_inc));
    let f_make = ast.fun(ident("make"), vec![], vec![s_var_i, s_inc, s_ret]);
    let s_make = ast.fun_decl(f_make);
    let e_make = ast.variable(ident("make"));
    let e_call_make = ast.call(e_make, kw(TokenType::RightParen, ")"), vec![]);
    let s_var_c = ast.var_decl(ident("c"), Some(e_call_make));
    let e_c1 = ast.variable(ident("c"));
    let e_call1 = ast.call(e_c1, kw(TokenType::RightParen, ")"), vec![]);
    let s_call1 = ast.expr_stmt(e_call1);
    let e_c2 = ast.variable(ident("c"));
    let e_call2 = ast.call(e_c2, kw(TokenType::RightParen, ")"), vec![]);
    let s_call2 = ast.expr_stmt(e_call2);
    let out = run_ok(&ast, &vec![s_make, s_var_c, s_call1, s_call2]);
    assert_eq!(out, vec!["1", "2"]);
}

#[test]
fn instance_identity_is_reference_not_value() {
    // class A {} var a = A(); a.x = 1; var b = a; b.x = 2; print a.x;
    let mut ast = Ast::new();
    let s_class = ast.class_decl(ident("A"), None, vec![]);
    let e_a_ctor = ast.variable(ident("A"));
    let e_new = ast.call(e_a_ctor, kw(TokenType::RightParen, ")"), vec![]);
    let s_var_a = ast.var_decl(ident("a"), Some(e_new));
    let e_a1 = ast.variable(ident("a"));
    let e_one = num(&mut ast, 1.0);
    let e_set1 = ast.set(e_a1, ident("x"), e_one);
    let s_set1 = ast.expr_stmt(e_set1);
    let e_a2 = ast.variable(ident("a"));
    let s_var_b = ast.var_decl(ident("b"), Some(e_a2));
    let e_b = ast.variable(ident("b"));
    let e_two = num(&mut ast, 2.0);
    let e_set2 = ast.set(e_b, ident("x"), e_two);
    let s_set2 = ast.expr_stmt(e_set2);
    let e_a3 = ast.variable(ident("a"));
    let e_get = ast.get(e_a3, ident("x"));
    let s_print = ast.print_stmt(kw(TokenType::Print, "print"), e_get);
    let out = run_ok(&ast, &vec![s_class, s_var_a, s_set1, s_var_b, s_set2, s_print]);
    assert_eq!(out, vec!["2"]);
}

#[test]
fn super_invokes_the_ancestor_implementation() {
    // class Base { who() { print "base"; } }
    // class Child < Base { who() { print "child"; } test() { super.who()(); } }
    // (the super expression yields the bound ancestor method, which is then called)
    // Child().test();
    let mut ast = Ast::new();
    let e_base_str = ast.literal(Literal::Str("base".to_string()));
    let s_print_base = ast.print_stmt(kw(TokenType::Print, "print"), e_base_str);
    let f_base_who = ast.fun(ident("who"), vec![], vec![s_print_base]);
    let s_base = ast.class_decl(ident("Base"), None, vec![f_base_who]);

    let e_child_str = ast.literal(Literal::Str("child".to_string()));
    let s_print_child = ast.print_stmt(kw(TokenType::Print, "print"), e_child_str);
    let f_child_who = ast.fun(ident("who"), vec![], vec![s_print_child]);
    let e_super = ast.super_(kw(TokenType::Super, "super"), ident("who"));
    let e_super_call = ast.call(e_super, kw(TokenType::RightParen, ")"), vec![]);
    let s_super_call = ast.expr_stmt(e_super_call);
    let f_test = ast.fun(ident("test"), vec![], vec![s_super_call]);
    let e_sup_ref = ast.variable(ident("Base"));
    let s_child = ast.class_decl(ident("Child"), Some(e_sup_ref), vec![f_child_who, f_test]);

    let e_child_ctor = ast.variable(ident("Child"));
    let e_new = ast.call(e_child_ctor, kw(TokenType::RightParen, ")"), vec![]);
    let e_test = ast.get(e_new, ident("test"));
    let e_run = ast.call(e_test, kw(TokenType::RightParen, ")"), vec![]);
    let s_run = ast.expr_stmt(e_run);
    let out = run_ok(&ast, &vec![s_base, s_child, s_run]);
    assert_eq!(out, vec!["base"]);
}

#[test]
fn subclass_override_wins_on_a_plain_call() {
    // Same classes as above, but calling who() on the child directly.
    let mut ast = Ast::new();
    let e_base_str = ast.literal(Literal::Str("base".to_string()));
    let s_print_base = ast.print_stmt(kw(TokenType::Print, "print"), e_base_str);
    let f_base_who = ast.fun(ident("who"), vec![], vec![s_print_base]);
    let s_base = ast.class_decl(ident("Base"), None, vec![f_base_who]);

    let e_child_str = ast.literal(Literal::Str("child".to_string()));
    let s_print_child = ast.print_stmt(kw(TokenType::Print, "print"), e_child_str);
    let f_child_who = ast.fun(ident("who"), vec![], vec![s_print_child]);
    let e_sup_ref = ast.variable(ident("Base"));
    let s_child = ast.class_decl(ident("Child"), Some(e_sup_ref), vec![f_child_who]);

    let e_child_ctor = ast.variable(ident("Child"));
    let e_new = ast.call(e_child_ctor, kw(TokenType::RightParen, ")"), vec![]);
    let e_who = ast.get(e_new, ident("who"));
    let e_run = ast.call(e_who, kw(TokenType::RightParen, ")"), vec![]);
    let s_run = ast.expr_stmt(e_run);
    let out = run_ok(&ast, &vec![s_base, s_child, s_run]);
    assert_eq!(out, vec!["child"]);
}

#[test]
fn constructor_result_is_always_the_instance() {
    // class C { init() { return; } } print C();
    let mut ast = Ast::new();
    let s_ret = ast.return_stmt(kw(TokenType::Return, "return"), None);
    let f_init = ast.fun(ident("init"), vec![], vec![s_ret]);
    let s_class = ast.class_decl(ident("C"), None, vec![f_init]);
    let e_ctor = ast.variable(ident("C"));
    let e_new = ast.call(e_ctor, kw(TokenType::RightParen, ")"), vec![]);
    let s_print = ast.print_stmt(kw(TokenType::Print, "print"), e_new);
    let out = run_ok(&ast, &vec![s_class, s_print]);
    assert_eq!(out, vec!["C instance"]);
}

#[test]
fn wrong_argument_count_reports_expected_and_actual() {
    // fun f(a, b) {} f(1);
    let mut ast = Ast::new();
    let f = ast.fun(ident("f"), vec![ident("a"), ident("b")], vec![]);
    let s_f = ast.fun_decl(f);
    let e_f = ast.variable(ident("f"));
    let e_one = num(&mut ast, 1.0);
    let e_call = ast.call(e_f, kw(TokenType::RightParen, ")"), vec![e_one]);
    let s_call = ast.expr_stmt(e_call);
    let (_, r) = run(&ast, &vec![s_f, s_call]);
    match r {
        Err(RuntimeError::InvalidArgumentCount { expected, actual, .. }) => {
            assert_eq!(expected, 2);
            assert_eq!(actual, 1);
        }
        other => panic!("expected InvalidArgumentCount, got {:?}", other),
    }
}

#[test]
fn truthiness_drives_the_bang_operator() {
    // print !nil; print !0; print !"";
    let mut ast = Ast::new();
    let e_nil = ast.literal(Literal::Nil);
    let e_not_nil = ast.unary(kw(TokenType::Not, "!"), e_nil);
    let s1 = ast.print_stmt(kw(TokenType::Print, "print"), e_not_nil);
    let e_zero = num(&mut ast, 0.0);
    let e_not_zero = ast.unary(kw(TokenType::Not, "!"), e_zero);
    let s2 = ast.print_stmt(kw(TokenType::Print, "print"), e_not_zero);
    let e_empty = ast.literal(Literal::Str(String::new()));
    let e_not_empty = ast.unary(kw(TokenType::Not, "!"), e_empty);
    let s3 = ast.print_stmt(kw(TokenType::Print, "print"), e_not_empty);
    let out = run_ok(&ast, &vec![s1, s2, s3]);
    assert_eq!(out, vec!["true", "false", "false"]);
}

#[test]
fn mixed_operands_error_strings_concatenate_no_coercion() {
    // print "a" + "b"; print 1 == "1"; 1 + "a";
    let mut ast = Ast::new();
    let e_a = ast.literal(Literal::Str("a".to_string()));
    let e_b = ast.literal(Literal::Str("b".to_string()));
    let e_cat = ast.binary(e_a, kw(TokenType::Plus, "+"), e_b);
    let s1 = ast.print_stmt(kw(TokenType::Print, "print"), e_cat);
    let e_one = num(&mut ast, 1.0);
    let e_one_str = ast.literal(Literal::Str("1".to_string()));
    let e_eq = ast.binary(e_one, kw(TokenType::Equal, "=="), e_one_str);
    let s2 = ast.print_stmt(kw(TokenType::Print, "print"), e_eq);
    let e_one2 = num(&mut ast, 1.0);
    let e_a2 = ast.literal(Literal::Str("a".to_string()));
    let e_bad = ast.binary(e_one2, kw(TokenType::Plus, "+"), e_a2);
    let s3 = ast.expr_stmt(e_bad);
    let (out, r) = run(&ast, &vec![s1, s2, s3]);
    assert_eq!(out, vec!["ab", "false"]);
    assert!(matches!(r, Err(RuntimeError::IncompatibleOperandType { .. })));
}

#[test]
fn while_loops_run_and_stop_on_falsy() {
    // var i = 0; while (i < 3) { print i; i = i + 1; }
    let mut ast = Ast::new();
    let e_zero = num(&mut ast, 0.0);
    let s_var = ast.var_decl(ident("i"), Some(e_zero));
    let e_i = ast.variable(ident("i"));
    let e_three = num(&mut ast, 3.0);
    let e_cond = ast.binary(e_i, kw(TokenType::Less, "<"), e_three);
    let e_i2 = ast.variable(ident("i"));
    let s_print = ast.print_stmt(kw(TokenType::Print, "print"), e_i2);
    let e_i3 = ast.variable(ident("i"));
    let e_one = num(&mut ast, 1.0);
    let e_sum = ast.binary(e_i3, kw(TokenType::Plus, "+"), e_one);
    let e_asgn = ast.assign(ident("i"), e_sum);
    let s_asgn = ast.expr_stmt(e_asgn);
    let s_body = ast.block_stmt(vec![s_print, s_asgn]);
    let s_while = ast.while_stmt(e_cond, s_body);
    let out = run_ok(&ast, &vec![s_var, s_while]);
    assert_eq!(out, vec!["0", "1", "2"]);
}

#[test]
fn if_takes_the_truthy_branch_and_else_otherwise() {
    // if (0) print "then"; else print "else";  -- 0 is truthy
    // if (nil) print "then"; else print "else";
    let mut ast = Ast::new();
    let e_zero = num(&mut ast, 0.0);
    let e_then1 = ast.literal(Literal::Str("then".to_string()));
    let s_then1 = ast.print_stmt(kw(TokenType::Print, "print"), e_then1);
    let e_else1 = ast.literal(Literal::Str("else".to_string()));
    let s_else1 = ast.print_stmt(kw(TokenType::Print, "print"), e_else1);
    let s_if1 = ast.if_stmt(e_zero, s_then1, Some(s_else1));
    let e_nil = ast.literal(Literal::Nil);
    let e_then2 = ast.literal(Literal::Str("then".to_string()));
    let s_then2 = ast.print_stmt(kw(TokenType::Print, "print"), e_then2);
    let e_else2 = ast.literal(Literal::Str("else".to_string()));
    let s_else2 = ast.print_stmt(kw(TokenType::Print, "print"), e_else2);
    let s_if2 = ast.if_stmt(e_nil, s_then2, Some(s_else2));
    let out = run_ok(&ast, &vec![s_if1, s_if2]);
    assert_eq!(out, vec!["then", "else"]);
}

#[test]
fn logical_operators_return_the_deciding_operand() {
    // print nil or "fallback"; print 0 and 1;
    let mut ast = Ast::new();
    let e_nil = ast.literal(Literal::Nil);
    let e_fb = ast.literal(Literal::Str("fallback".to_string()));
    let e_or = ast.or(e_nil, e_fb);
    let s1 = ast.print_stmt(kw(TokenType::Print, "print"), e_or);
    let e_zero = num(&mut ast, 0.0);
    let e_one = num(&mut ast, 1.0);
    let e_and = ast.and(e_zero, e_one);
    let s2 = ast.print_stmt(kw(TokenType::Print, "print"), e_and);
    let out = run_ok(&ast, &vec![s1, s2]);
    assert_eq!(out, vec!["fallback", "1"]);
}

#[test]
fn reading_an_undefined_global_is_a_runtime_error() {
    let mut ast = Ast::new();
    let e = ast.variable(ident("ghost"));
    let s = ast.print_stmt(kw(TokenType::Print, "print"), e);
    let (_, r) = run(&ast, &vec![s]);
    match r {
        Err(RuntimeError::UndefinedVariable { token }) => assert_eq!(token.lexeme, "ghost"),
        other => panic!("expected UndefinedVariable, got {:?}", other),
    }
}

#[test]
fn calling_a_non_callable_is_a_runtime_error() {
    // "x"();
    let mut ast = Ast::new();
    let e_x = ast.literal(Literal::Str("x".to_string()));
    let e_call = ast.call(e_x, kw(TokenType::RightParen, ")"), vec![]);
    let s = ast.expr_stmt(e_call);
    let (_, r) = run(&ast, &vec![s]);
    assert!(matches!(r, Err(RuntimeError::NotValidCallable { .. })));
}

#[test]
fn property_access_demands_an_instance() {
    // 1.x;
    let mut ast = Ast::new();
    let e_one = num(&mut ast, 1.0);
    let e_get = ast.get(e_one, ident("x"));
    let s = ast.expr_stmt(e_get);
    let (_, r) = run(&ast, &vec![s]);
    assert!(matches!(r, Err(RuntimeError::NotAnInstance { .. })));
}

#[test]
fn missing_property_is_undefined_property() {
    // class A {} A().missing;
    let mut ast = Ast::new();
    let s_class = ast.class_decl(ident("A"), None, vec![]);
    let e_ctor = ast.variable(ident("A"));
    let e_new = ast.call(e_ctor, kw(TokenType::RightParen, ")"), vec![]);
    let e_get = ast.get(e_new, ident("missing"));
    let s = ast.expr_stmt(e_get);
    let (_, r) = run(&ast, &vec![s_class, s]);
    match r {
        Err(RuntimeError::UndefinedProperty { token }) => assert_eq!(token.lexeme, "missing"),
        other => panic!("expected UndefinedProperty, got {:?}", other),
    }
}

#[test]
fn superclass_must_be_a_class() {
    // var NotAClass = 1; class C < NotAClass {}
    let mut ast = Ast::new();
    let e_one = num(&mut ast, 1.0);
    let s_var = ast.var_decl(ident("NotAClass"), Some(e_one));
    let e_sup = ast.variable(ident("NotAClass"));
    let s_class = ast.class_decl(ident("C"), Some(e_sup), vec![]);
    let (_, r) = run(&ast, &vec![s_var, s_class]);
    assert!(matches!(r, Err(RuntimeError::SuperclassMustBeAClass { .. })));
}

#[test]
fn assigning_an_undefined_global_is_a_runtime_error() {
    // ghost = 1;
    let mut ast = Ast::new();
    let e_one = num(&mut ast, 1.0);
    let e_asgn = ast.assign(ident("ghost"), e_one);
    let s = ast.expr_stmt(e_asgn);
    let (_, r) = run(&ast, &vec![s]);
    assert!(matches!(r, Err(RuntimeError::UndefinedVariable { .. })));
}

#[test]
fn assignment_evaluates_to_the_assigned_value() {
    // var a = 1; print a = 5;
    let mut ast = Ast::new();
    let e_one = num(&mut ast, 1.0);
    let s_var = ast.var_decl(ident("a"), Some(e_one));
    let e_five = num(&mut ast, 5.0);
    let e_asgn = ast.assign(ident("a"), e_five);
    let s_print = ast.print_stmt(kw(TokenType::Print, "print"), e_asgn);
    let out = run_ok(&ast, &vec![s_var, s_print]);
    assert_eq!(out, vec!["5"]);
}

#[test]
fn functions_and_classes_render_by_name() {
    // fun f() {} print f; class A {} print A; print clock;
    let mut ast = Ast::new();
    let f = ast.fun(ident("f"), vec![], vec![]);
    let s_f = ast.fun_decl(f);
    let e_f = ast.variable(ident("f"));
    let s1 = ast.print_stmt(kw(TokenType::Print, "print"), e_f);
    let s_class = ast.class_decl(ident("A"), None, vec![]);
    let e_a = ast.variable(ident("A"));
    let s2 = ast.print_stmt(kw(TokenType::Print, "print"), e_a);
    let e_clock = ast.variable(ident("clock"));
    let s3 = ast.print_stmt(kw(TokenType::Print, "print"), e_clock);
    let out = run_ok(&ast, &vec![s_f, s1, s_class, s2, s3]);
    assert_eq!(out, vec!["<fn f>", "A", "<native fn>"]);
}

#[test]
fn initializer_runs_with_arguments() {
    // class P { init(x) { this.x = x; } } print P(7).x;
    let mut ast = Ast::new();
    let e_this = ast.this(kw(TokenType::This, "this"));
    let e_x = ast.variable(ident("x"));
    let e_set = ast.set(e_this, ident("x"), e_x);
    let s_set = ast.expr_stmt(e_set);
    let f_init = ast.fun(ident("init"), vec![ident("x")], vec![s_set]);
    let s_class = ast.class_decl(ident("P"), None, vec![f_init]);
    let e_ctor = ast.variable(ident("P"));
    let e_seven = num(&mut ast, 7.0);
    let e_new = ast.call(e_ctor, kw(TokenType::RightParen, ")"), vec![e_seven]);
    let e_get = ast.get(e_new, ident("x"));
    let s_print = ast.print_stmt(kw(TokenType::Print, "print"), e_get);
    let out = run_ok(&ast, &vec![s_class, s_print]);
    assert_eq!(out, vec!["7"]);
}

#[test]
fn methods_read_fields_through_this() {
    // class Counter { init() { this.n = 0; } bump() { this.n = this.n + 1; return this.n; } }
    // var c = Counter(); c.bump(); print c.bump();
    let mut ast = Ast::new();
    let e_this1 = ast.this(kw(TokenType::This, "this"));
    let e_zero = num(&mut ast, 0.0);
    let e_set0 = ast.set(e_this1, ident("n"), e_zero);
    let s_set0 = ast.expr_stmt(e_set0);
    let f_init = ast.fun(ident("init"), vec![], vec![s_set0]);
    let e_this2 = ast.this(kw(TokenType::This, "this"));
    let e_n = ast.get(e_this2, ident("n"));
    let e_one = num(&mut ast, 1.0);
    let e_sum = ast.binary(e_n, kw(TokenType::Plus, "+"), e_one);
    let e_this3 = ast.this(kw(TokenType::This, "this"));
    let e_setn = ast.set(e_this3, ident("n"), e_sum);
    let s_setn = ast.expr_stmt(e_setn);
    let e_this4 = ast.this(kw(TokenType::This, "this"));
    let e_n2 = ast.get(e_this4, ident("n"));
    let s_ret = ast.return_stmt(kw(TokenType::Return, "return"), Some(e_n2));
    let f_bump = ast.fun(ident("bump"), vec![], vec![s_setn, s_ret]);
    let s_class = ast.class_decl(ident("Counter"), None, vec![f_init, f_bump]);
    let e_ctor = ast.variable(ident("Counter"));
    let e_new = ast.call(e_ctor, kw(TokenType::RightParen, ")"), vec![]);
    let s_var = ast.var_decl(ident("c"), Some(e_new));
    let e_c1 = ast.variable(ident("c"));
    let e_b1 = ast.get(e_c1, ident("bump"));
    let e_call1 = ast.call(e_b1, kw(TokenType::RightParen, ")"), vec![]);
    let s_call1 = ast.expr_stmt(e_call1);
    let e_c2 = ast.variable(ident("c"));
    let e_b2 = ast.get(e_c2, ident("bump"));
    let e_call2 = ast.call(e_b2, kw(TokenType::RightParen, ")"), vec![]);
    let s_print = ast.print_stmt(kw(TokenType::Print, "print"), e_call2);
    let out = run_ok(&ast, &vec![s_class, s_var, s_call1, s_print]);
    assert_eq!(out, vec!["2"]);
}

#[test]
fn inherited_methods_are_found_through_the_chain() {
    // class A { hello() { print "hi"; } } class B < A {} B().hello();
    let mut ast = Ast::new();
    let e_hi = ast.literal(Literal::Str("hi".to_string()));
    let s_print = ast.print_stmt(kw(TokenType::Print, "print"), e_hi);
    let f_hello = ast.fun(ident("hello"), vec![], vec![s_print]);
    let s_a = ast.class_decl(ident("A"), None, vec![f_hello]);
    let e_sup = ast.variable(ident("A"));
    let s_b = ast.class_decl(ident("B"), Some(e_sup), vec![]);
    let e_ctor = ast.variable(ident("B"));
    let e_new = ast.call(e_ctor, kw(TokenType::RightParen, ")"), vec![]);
    let e_m = ast.get(e_new, ident("hello"));
    let e_call = ast.call(e_m, kw(TokenType::RightParen, ")"), vec![]);
    let s_call = ast.expr_stmt(e_call);
    let out = run_ok(&ast, &vec![s_a, s_b, s_call]);
    assert_eq!(out, vec!["hi"]);
}

#[test]
fn runaway_recursion_is_reported_not_crashed() {
    // fun loop_forever() { loop_forever(); } loop_forever();
    let mut ast = Ast::new();
    let e_self = ast.variable(ident("again"));
    let e_call = ast.call(e_self, kw(TokenType::RightParen, ")"), vec![]);
    let s_call = ast.expr_stmt(e_call);
    let f = ast.fun(ident("again"), vec![], vec![s_call]);
    let s_f = ast.fun_decl(f);
    let e_f = ast.variable(ident("again"));
    let e_run = ast.call(e_f, kw(TokenType::RightParen, ")"), vec![]);
    let s_run = ast.expr_stmt(e_run);
    let mut r = Resolver::new();
    let roots = vec![s_f, s_run];
    r.resolve(&ast, &roots);
    assert!(!r.has_err());
    let mut tw = TreeWalk::new();
    tw.interpret(&ast, &r.distances, s_f, 1000).unwrap();
    let e = tw.interpret(&ast, &r.distances, s_run, 1000);
    assert!(matches!(e, Err(RuntimeError::StackOverflow)));
}

#[test]
fn a_function_without_a_return_yields_nil() {
    // fun f() {} print f();
    let mut ast = Ast::new();
    let f = ast.fun(ident("f"), vec![], vec![]);
    let s_f = ast.fun_decl(f);
    let e_f = ast.variable(ident("f"));
    let e_call = ast.call(e_f, kw(TokenType::RightParen, ")"), vec![]);
    let s_print = ast.print_stmt(kw(TokenType::Print, "print"), e_call);
    let out = run_ok(&ast, &vec![s_f, s_print]);
    assert_eq!(out, vec!["nil"]);
}

#[test]
fn blocks_scope_their_variables() {
    // var a = "outer"; { var a = "inner"; print a; } print a;
    let mut ast = Ast::new();
    let e_outer = ast.literal(Literal::Str("outer".to_string()));
    let s_var1 = ast.var_decl(ident("a"), Some(e_outer));
    let e_inner = ast.literal(Literal::Str("inner".to_string()));
    let s_var2 = ast.var_decl(ident("a"), Some(e_inner));
    let e_a1 = ast.variable(ident("a"));
    let s_print1 = ast.print_stmt(kw(TokenType::Print, "print"), e_a1);
    let s_block = ast.block_stmt(vec![s_var2, s_print1]);
    let e_a2 = ast.variable(ident("a"));
    let s_print2 = ast.print_stmt(kw(TokenType::Print, "print"), e_a2);
    let out = run_ok(&ast, &vec![s_var1, s_block, s_print2]);
    assert_eq!(out, vec!["inner", "outer"]);
}
