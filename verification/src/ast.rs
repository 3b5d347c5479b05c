//! The syntax tree the core consumes: a closed set of expression and
//! statement kinds, held in flat arenas and connected by indices.
//!
//! Nodes are appended children-first, so every node's children have smaller
//! indices than the node itself; `wf_ast` records this together with the
//! range checks.  The index of an expression node doubles as the stable
//! identity under which the resolver records its scope distance, so the
//! tree itself is never mutated after parsing.

use crate::token::Token;
use crate::token::TokenType;
use vstd::prelude::*;

verus! {

pub type ExprId = usize;

pub type StmtId = usize;

pub type FunId = usize;

/// A literal expression; a number is carried as the bit pattern of an
/// IEEE-754 binary64 value.
#[derive(Debug)]
pub enum Literal {
    Number(u64),
    Str(String),
    Bool(bool),
    Nil,
}

#[derive(Debug)]
pub enum Expr {
    Literal(Literal),
    Grouping(ExprId),
    Unary { operator: Token, expr: ExprId },
    Binary { left: ExprId, operator: Token, right: ExprId },
    Variable { name: Token },
    Asign { name: Token, value: ExprId },
    LogicalOr { left: ExprId, right: ExprId },
    LogicalAnd { left: ExprId, right: ExprId },
    Call { callee: ExprId, paren: Token, args: Vec<ExprId> },
    Get { object: ExprId, name: Token },
    SetProp { object: ExprId, name: Token, value: ExprId },
    This { keyword: Token },
    Super { keyword: Token, method: Token },
}

#[derive(Debug)]
pub struct FunctionDecl {
    pub name: Token,
    pub params: Vec<Token>,
    pub body: Vec<StmtId>,
}

#[derive(Debug)]
pub struct VariableDecl {
    pub name: Token,
    pub initializer: Option<ExprId>,
}

#[derive(Debug)]
pub struct ClassDecl {
    pub name: Token,
    pub superclass: Option<ExprId>,
    pub methods: Vec<FunId>,
}

#[derive(Debug)]
pub struct PrintStatement {
    pub print_token: Token,
    pub expr: ExprId,
}

#[derive(Debug)]
pub struct BlockStatement {
    pub statements: Vec<StmtId>,
}

#[derive(Debug)]
pub struct IfStatemnet {
    pub condition: ExprId,
    pub if_branch: StmtId,
    pub else_branch: Option<StmtId>,
}

#[derive(Debug)]
pub struct ReturnStatement {
    pub return_token: Token,
    pub value: Option<ExprId>,
}

#[derive(Debug)]
pub struct WhileStatement {
    pub condition: ExprId,
    pub body: StmtId,
}

#[derive(Debug)]
pub struct ExpressionStatement {
    pub expr: ExprId,
}

#[derive(Debug)]
pub enum Statement {
    FunDecl(FunId),
    VarDecl(VariableDecl),
    ClassDecl(ClassDecl),
    Print(PrintStatement),
    Expr(ExpressionStatement),
    Block(BlockStatement),
    If(IfStatemnet),
    While(WhileStatement),
    Return(ReturnStatement),
}

/// The whole program: expression, statement and function-declaration arenas.
#[derive(Debug)]
pub struct Ast {
    pub exprs: Vec<Expr>,
    pub stmts: Vec<Statement>,
    pub funs: Vec<FunctionDecl>,
}

/// The token kinds that may stand as a binary operator.
pub open spec fn is_binary_op(t: TokenType) -> bool {
    ||| t == TokenType::Plus
    ||| t == TokenType::Minus
    ||| t == TokenType::Star
    ||| t == TokenType::Div
    ||| t == TokenType::Greater
    ||| t == TokenType::GreaterEq
    ||| t == TokenType::Less
    ||| t == TokenType::LessEq
    ||| t == TokenType::Equal
    ||| t == TokenType::NotEqual
}

/// The token kinds that may stand as a unary operator.
pub open spec fn is_unary_op(t: TokenType) -> bool {
    t == TokenType::Minus || t == TokenType::Not
}

/// Well-formedness of the expression node at index `i`: children have
/// smaller indices and operators are of the right kind.
pub open spec fn wf_expr_at(ast: Ast, i: int) -> bool
    recommends
        0 <= i < ast.exprs@.len(),
{
    match ast.exprs@[i] {
        Expr::Literal(_) => true,
        Expr::Grouping(e) => (e as int) < i,
        Expr::Unary { operator, expr } => is_unary_op(operator.token_type) && (expr as int) < i,
        Expr::Binary { left, operator, right } => is_binary_op(operator.token_type)
            && (left as int) < i && (right as int) < i,
        Expr::Variable { .. } => true,
        Expr::Asign { value, .. } => (value as int) < i,
        Expr::LogicalOr { left, right } => (left as int) < i && (right as int) < i,
        Expr::LogicalAnd { left, right } => (left as int) < i && (right as int) < i,
        Expr::Call { callee, args, .. } => (callee as int) < i
            && forall|k: int| 0 <= k < args@.len() ==> (#[trigger] args@[k] as int) < i,
        Expr::Get { object, .. } => (object as int) < i,
        Expr::SetProp { object, value, .. } => (object as int) < i && (value as int) < i,
        Expr::This { .. } => true,
        Expr::Super { .. } => true,
    }
}

/// Every statement of the body of function declaration `f` lies below
/// statement index `j`.
pub open spec fn fun_body_below(ast: Ast, f: int, j: int) -> bool
    recommends
        0 <= f < ast.funs@.len(),
{
    forall|k: int| 0 <= k < ast.funs@[f].body@.len() ==> (#[trigger] ast.funs@[f].body@[k] as int) < j
}

/// Well-formedness of the statement node at index `j`: expression children
/// are in range, statement children (branches, block members, referenced
/// function bodies) have smaller indices, and a superclass expression is a
/// plain variable reference.
pub open spec fn wf_stmt_at(ast: Ast, j: int) -> bool
    recommends
        0 <= j < ast.stmts@.len(),
{
    match ast.stmts@[j] {
        Statement::FunDecl(f) => (f as int) < ast.funs@.len() && fun_body_below(ast, f as int, j),
        Statement::VarDecl(v) => match v.initializer {
            Some(e) => (e as int) < ast.exprs@.len(),
            None => true,
        },
        Statement::ClassDecl(c) => {
            &&& match c.superclass {
                Some(e) => (e as int) < ast.exprs@.len() && ast.exprs@[e as int] is Variable,
                None => true,
            }
            &&& forall|k: int| 0 <= k < c.methods@.len()
                ==> (#[trigger] c.methods@[k] as int) < ast.funs@.len()
                    && fun_body_below(ast, c.methods@[k] as int, j)
        },
        Statement::Print(p) => (p.expr as int) < ast.exprs@.len(),
        Statement::Expr(e) => (e.expr as int) < ast.exprs@.len(),
        Statement::Block(b) => forall|k: int| 0 <= k < b.statements@.len()
            ==> (#[trigger] b.statements@[k] as int) < j,
        Statement::If(s) => (s.condition as int) < ast.exprs@.len() && (s.if_branch as int) < j
            && match s.else_branch {
                Some(e) => (e as int) < j,
                None => true,
            },
        Statement::While(w) => (w.condition as int) < ast.exprs@.len() && (w.body as int) < j,
        Statement::Return(r) => match r.value {
            Some(e) => (e as int) < ast.exprs@.len(),
            None => true,
        },
    }
}

/// Well-formedness of the function declaration at index `f`: its body names
/// existing statements.
pub open spec fn wf_fun_at(ast: Ast, f: int) -> bool
    recommends
        0 <= f < ast.funs@.len(),
{
    forall|k: int| 0 <= k < ast.funs@[f].body@.len()
        ==> (#[trigger] ast.funs@[f].body@[k] as int) < ast.stmts@.len()
}

/// Well-formedness of the whole tree.
pub open spec fn wf_ast(ast: Ast) -> bool {
    &&& forall|i: int| 0 <= i < ast.exprs@.len() ==> #[trigger] wf_expr_at(ast, i)
    &&& forall|j: int| 0 <= j < ast.stmts@.len() ==> #[trigger] wf_stmt_at(ast, j)
    &&& forall|f: int| 0 <= f < ast.funs@.len() ==> #[trigger] wf_fun_at(ast, f)
}

/// Appending an expression node whose children lie below it preserves
/// well-formedness.
proof fn lemma_grow_exprs(a: Ast, b: Ast)
    requires
        wf_ast(a),
        b.stmts == a.stmts,
        b.funs == a.funs,
        b.exprs@ =~= a.exprs@.push(b.exprs@.last()),
        wf_expr_at(b, a.exprs@.len() as int),
    ensures
        wf_ast(b),
{
    assert forall|i: int| 0 <= i < b.exprs@.len() implies #[trigger] wf_expr_at(b, i) by {
        if i < a.exprs@.len() {
            assert(wf_expr_at(a, i));
            assert(b.exprs@[i] == a.exprs@[i]);
        }
    }
    assert forall|j: int| 0 <= j < b.stmts@.len() implies #[trigger] wf_stmt_at(b, j) by {
        assert(wf_stmt_at(a, j));
        match b.stmts@[j] {
            Statement::ClassDecl(c) => {
                assert(match c.superclass {
                    Some(e) => (e as int) < b.exprs@.len() && b.exprs@[e as int] is Variable,
                    None => true,
                }) by {
                    if let Some(e) = c.superclass {
                        assert(b.exprs@[e as int] == a.exprs@[e as int]);
                    }
                }
            },
            _ => {},
        }
    }
    assert forall|f: int| 0 <= f < b.funs@.len() implies #[trigger] wf_fun_at(b, f) by {
        assert(wf_fun_at(a, f));
    }
}

/// Appending a statement node whose statement children lie below it
/// preserves well-formedness.
proof fn lemma_grow_stmts(a: Ast, b: Ast)
    requires
        wf_ast(a),
        b.exprs == a.exprs,
        b.funs == a.funs,
        b.stmts@ =~= a.stmts@.push(b.stmts@.last()),
        wf_stmt_at(b, a.stmts@.len() as int),
    ensures
        wf_ast(b),
{
    assert forall|i: int| 0 <= i < b.exprs@.len() implies #[trigger] wf_expr_at(b, i) by {
        assert(wf_expr_at(a, i));
    }
    assert forall|j: int| 0 <= j < b.stmts@.len() implies #[trigger] wf_stmt_at(b, j) by {
        if j < a.stmts@.len() {
            assert(wf_stmt_at(a, j));
            assert(b.stmts@[j] == a.stmts@[j]);
        }
    }
    assert forall|f: int| 0 <= f < b.funs@.len() implies #[trigger] wf_fun_at(b, f) by {
        assert(wf_fun_at(a, f));
    }
}

/// Appending a function declaration whose body names existing statements
/// preserves well-formedness.
proof fn lemma_grow_funs(a: Ast, b: Ast)
    requires
        wf_ast(a),
        b.exprs == a.exprs,
        b.stmts == a.stmts,
        b.funs@ =~= a.funs@.push(b.funs@.last()),
        wf_fun_at(b, a.funs@.len() as int),
    ensures
        wf_ast(b),
{
    assert forall|i: int| 0 <= i < b.exprs@.len() implies #[trigger] wf_expr_at(b, i) by {
        assert(wf_expr_at(a, i));
    }
    assert forall|j: int| 0 <= j < b.stmts@.len() implies #[trigger] wf_stmt_at(b, j) by {
        assert(wf_stmt_at(a, j));
        match b.stmts@[j] {
            Statement::FunDecl(f) => {
                assert(b.funs@[f as int] == a.funs@[f as int]);
                assert(fun_body_below(a, f as int, j));
                assert(fun_body_below(b, f as int, j));
            },
            Statement::ClassDecl(c) => {
                assert forall|k: int| 0 <= k < c.methods@.len()
                    implies (#[trigger] c.methods@[k] as int) < b.funs@.len()
                        && fun_body_below(b, c.methods@[k] as int, j) by {
                    assert(b.funs@[c.methods@[k] as int] == a.funs@[c.methods@[k] as int]);
                    assert(fun_body_below(a, c.methods@[k] as int, j));
                }
            },
            _ => {},
        }
    }
    assert forall|f: int| 0 <= f < b.funs@.len() implies #[trigger] wf_fun_at(b, f) by {
        if f < a.funs@.len() {
            assert(wf_fun_at(a, f));
            assert(b.funs@[f] == a.funs@[f]);
        }
    }
}

impl Ast {
    /// An empty tree.
    pub fn new() -> (ast: Ast)
        ensures
            wf_ast(ast),
            ast.exprs@.len() == 0,
            ast.stmts@.len() == 0,
            ast.funs@.len() == 0,
    {
        Ast { exprs: Vec::new(), stmts: Vec::new(), funs: Vec::new() }
    }

    /// A literal expression node.
    pub fn literal(&mut self, literal: Literal) -> (id: ExprId)
        requires
            wf_ast(*old(self)),
        ensures
            wf_ast(*final(self)),
            id == old(self).exprs@.len(),
            final(self).exprs@ == old(self).exprs@.push(Expr::Literal(literal)),
            final(self).stmts == old(self).stmts,
            final(self).funs == old(self).funs,
    {
        let id = self.exprs.len();
        self.exprs.push(Expr::Literal(literal));
        proof {
            lemma_grow_exprs(*old(self), *self);
        }
        id
    }

    /// A parenthesised expression node.
    pub fn grouping(&mut self, expr: ExprId) -> (id: ExprId)
        requires
            wf_ast(*old(self)),
            expr < old(self).exprs@.len(),
        ensures
            wf_ast(*final(self)),
            id == old(self).exprs@.len(),
            final(self).exprs@ == old(self).exprs@.push(Expr::Grouping(expr)),
            final(self).stmts == old(self).stmts,
            final(self).funs == old(self).funs,
    {
        let id = self.exprs.len();
        self.exprs.push(Expr::Grouping(expr));
        proof {
            lemma_grow_exprs(*old(self), *self);
        }
        id
    }

    /// A unary operator node; the operator token must be `-` or `!`.
    pub fn unary(&mut self, operator: Token, expr: ExprId) -> (id: ExprId)
        requires
            wf_ast(*old(self)),
            is_unary_op(operator.token_type),
            expr < old(self).exprs@.len(),
        ensures
            wf_ast(*final(self)),
            id == old(self).exprs@.len(),
            final(self).exprs@ == old(self).exprs@.push(Expr::Unary { operator, expr }),
            final(self).stmts == old(self).stmts,
            final(self).funs == old(self).funs,
    {
        let id = self.exprs.len();
        self.exprs.push(Expr::Unary { operator, expr });
        proof {
            lemma_grow_exprs(*old(self), *self);
        }
        id
    }

    /// A binary operator node; the operator token must be one of the
    /// arithmetic, comparison or equality operators.
    pub fn binary(&mut self, left: ExprId, operator: Token, right: ExprId) -> (id: ExprId)
        requires
            wf_ast(*old(self)),
            is_binary_op(operator.token_type),
            left < old(self).exprs@.len(),
            right < old(self).exprs@.len(),
        ensures
            wf_ast(*final(self)),
            id == old(self).exprs@.len(),
            final(self).exprs@ == old(self).exprs@.push(Expr::Binary { left, operator, right }),
            final(self).stmts == old(self).stmts,
            final(self).funs == old(self).funs,
    {
        let id = self.exprs.len();
        self.exprs.push(Expr::Binary { left, operator, right });
        proof {
            lemma_grow_exprs(*old(self), *self);
        }
        id
    }

    /// A variable reference node.
    pub fn variable(&mut self, name: Token) -> (id: ExprId)
        requires
            wf_ast(*old(self)),
        ensures
            wf_ast(*final(self)),
            id == old(self).exprs@.len(),
            final(self).exprs@ == old(self).exprs@.push(Expr::Variable { name }),
            final(self).stmts == old(self).stmts,
            final(self).funs == old(self).funs,
    {
        let id = self.exprs.len();
        self.exprs.push(Expr::Variable { name });
        proof {
            lemma_grow_exprs(*old(self), *self);
        }
        id
    }

    /// An assignment node.
    pub fn assign(&mut self, name: Token, value: ExprId) -> (id: ExprId)
        requires
            wf_ast(*old(self)),
            value < old(self).exprs@.len(),
        ensures
            wf_ast(*final(self)),
            id == old(self).exprs@.len(),
            final(self).exprs@ == old(self).exprs@.push(Expr::Asign { name, value }),
            final(self).stmts == old(self).stmts,
            final(self).funs == old(self).funs,
    {
        let id = self.exprs.len();
        self.exprs.push(Expr::Asign { name, value });
        proof {
            lemma_grow_exprs(*old(self), *self);
        }
        id
    }

    /// A short-circuiting `or` node.
    pub fn or(&mut self, left: ExprId, right: ExprId) -> (id: ExprId)
        requires
            wf_ast(*old(self)),
            left < old(self).exprs@.len(),
            right < old(self).exprs@.len(),
        ensures
            wf_ast(*final(self)),
            id == old(self).exprs@.len(),
            final(self).exprs@ == old(self).exprs@.push(Expr::LogicalOr { left, right }),
            final(self).stmts == old(self).stmts,
            final(self).funs == old(self).funs,
    {
        let id = self.exprs.len();
        self.exprs.push(Expr::LogicalOr { left, right });
        proof {
            lemma_grow_exprs(*old(self), *self);
        }
        id
    }

    /// A short-circuiting `and` node.
    pub fn and(&mut self, left: ExprId, right: ExprId) -> (id: ExprId)
        requires
            wf_ast(*old(self)),
            left < old(self).exprs@.len(),
            right < old(self).exprs@.len(),
        ensures
            wf_ast(*final(self)),
            id == old(self).exprs@.len(),
            final(self).exprs@ == old(self).exprs@.push(Expr::LogicalAnd { left, right }),
            final(self).stmts == old(self).stmts,
            final(self).funs == old(self).funs,
    {
        let id = self.exprs.len();
        self.exprs.push(Expr::LogicalAnd { left, right });
        proof {
            lemma_grow_exprs(*old(self), *self);
        }
        id
    }

    /// A call node; `paren` is the closing parenthesis, kept for error
    /// reporting.
    pub fn call(&mut self, callee: ExprId, paren: Token, args: Vec<ExprId>) -> (id: ExprId)
        requires
            wf_ast(*old(self)),
            callee < old(self).exprs@.len(),
            forall|k: int| 0 <= k < args@.len() ==> (#[trigger] args@[k] as int) < old(self).exprs@.len(),
        ensures
            wf_ast(*final(self)),
            id == old(self).exprs@.len(),
            final(self).exprs@ == old(self).exprs@.push(Expr::Call { callee, paren, args }),
            final(self).stmts == old(self).stmts,
            final(self).funs == old(self).funs,
    {
        let id = self.exprs.len();
        self.exprs.push(Expr::Call { callee, paren, args });
        proof {
            lemma_grow_exprs(*old(self), *self);
        }
        id
    }

    /// A property read node.
    pub fn get(&mut self, object: ExprId, name: Token) -> (id: ExprId)
        requires
            wf_ast(*old(self)),
            object < old(self).exprs@.len(),
        ensures
            wf_ast(*final(self)),
            id == old(self).exprs@.len(),
            final(self).exprs@ == old(self).exprs@.push(Expr::Get { object, name }),
            final(self).stmts == old(self).stmts,
            final(self).funs == old(self).funs,
    {
        let id = self.exprs.len();
        self.exprs.push(Expr::Get { object, name });
        proof {
            lemma_grow_exprs(*old(self), *self);
        }
        id
    }

    /// A property write node.
    pub fn set(&mut self, object: ExprId, name: Token, value: ExprId) -> (id: ExprId)
        requires
            wf_ast(*old(self)),
            object < old(self).exprs@.len(),
            value < old(self).exprs@.len(),
        ensures
            wf_ast(*final(self)),
            id == old(self).exprs@.len(),
            final(self).exprs@ == old(self).exprs@.push(Expr::SetProp { object, name, value }),
            final(self).stmts == old(self).stmts,
            final(self).funs == old(self).funs,
    {
        let id = self.exprs.len();
        self.exprs.push(Expr::SetProp { object, name, value });
        proof {
            lemma_grow_exprs(*old(self), *self);
        }
        id
    }

    /// A `this` node.
    pub fn this(&mut self, keyword: Token) -> (id: ExprId)
        requires
            wf_ast(*old(self)),
        ensures
            wf_ast(*final(self)),
            id == old(self).exprs@.len(),
            final(self).exprs@ == old(self).exprs@.push(Expr::This { keyword }),
            final(self).stmts == old(self).stmts,
            final(self).funs == old(self).funs,
    {
        let id = self.exprs.len();
        self.exprs.push(Expr::This { keyword });
        proof {
            lemma_grow_exprs(*old(self), *self);
        }
        id
    }

    /// A `super.method` node.
    pub fn super_(&mut self, keyword: Token, method: Token) -> (id: ExprId)
        requires
            wf_ast(*old(self)),
        ensures
            wf_ast(*final(self)),
            id == old(self).exprs@.len(),
            final(self).exprs@ == old(self).exprs@.push(Expr::Super { keyword, method }),
            final(self).stmts == old(self).stmts,
            final(self).funs == old(self).funs,
    {
        let id = self.exprs.len();
        self.exprs.push(Expr::Super { keyword, method });
        proof {
            lemma_grow_exprs(*old(self), *self);
        }
        id
    }

    /// A function declaration, to be referenced by a function-declaration
    /// statement or a class's method list.
    pub fn fun(&mut self, name: Token, params: Vec<Token>, body: Vec<StmtId>) -> (id: FunId)
        requires
            wf_ast(*old(self)),
            forall|k: int| 0 <= k < body@.len() ==> (#[trigger] body@[k] as int) < old(self).stmts@.len(),
        ensures
            wf_ast(*final(self)),
            id == old(self).funs@.len(),
            final(self).funs@ == old(self).funs@.push(FunctionDecl { name, params, body }),
            final(self).exprs == old(self).exprs,
            final(self).stmts == old(self).stmts,
    {
        let id = self.funs.len();
        self.funs.push(FunctionDecl { name, params, body });
        proof {
            lemma_grow_funs(*old(self), *self);
        }
        id
    }

    /// A function-declaration statement.
    pub fn fun_decl(&mut self, f: FunId) -> (id: StmtId)
        requires
            wf_ast(*old(self)),
            f < old(self).funs@.len(),
        ensures
            wf_ast(*final(self)),
            id == old(self).stmts@.len(),
            final(self).stmts@ == old(self).stmts@.push(Statement::FunDecl(f)),
            final(self).exprs == old(self).exprs,
            final(self).funs == old(self).funs,
    {
        let id = self.stmts.len();
        self.stmts.push(Statement::FunDecl(f));
        proof {
            assert(wf_fun_at(*old(self), f as int));
            lemma_grow_stmts(*old(self), *self);
        }
        id
    }

    /// A variable declaration statement.
    pub fn var_decl(&mut self, name: Token, initializer: Option<ExprId>) -> (id: StmtId)
        requires
            wf_ast(*old(self)),
            initializer matches Some(e) ==> e < old(self).exprs@.len(),
        ensures
            wf_ast(*final(self)),
            id == old(self).stmts@.len(),
            final(self).stmts@ == old(self).stmts@.push(
                Statement::VarDecl(VariableDecl { name, initializer }),
            ),
            final(self).exprs == old(self).exprs,
            final(self).funs == old(self).funs,
    {
        let id = self.stmts.len();
        self.stmts.push(Statement::VarDecl(VariableDecl { name, initializer }));
        proof {
            lemma_grow_stmts(*old(self), *self);
        }
        id
    }

    /// A class declaration statement; a superclass expression must be a
    /// plain variable reference.
    pub fn class_decl(&mut self, name: Token, superclass: Option<ExprId>, methods: Vec<FunId>) -> (id: StmtId)
        requires
            wf_ast(*old(self)),
            superclass matches Some(e)
                ==> e < old(self).exprs@.len() && old(self).exprs@[e as int] is Variable,
            forall|k: int| 0 <= k < methods@.len()
                ==> (#[trigger] methods@[k] as int) < old(self).funs@.len(),
        ensures
            wf_ast(*final(self)),
            id == old(self).stmts@.len(),
            final(self).stmts@ == old(self).stmts@.push(
                Statement::ClassDecl(ClassDecl { name, superclass, methods }),
            ),
            final(self).exprs == old(self).exprs,
            final(self).funs == old(self).funs,
    {
        let id = self.stmts.len();
        self.stmts.push(Statement::ClassDecl(ClassDecl { name, superclass, methods }));
        proof {
            assert forall|k: int| 0 <= k < methods@.len()
                implies (#[trigger] methods@[k] as int) < self.funs@.len()
                    && fun_body_below(*self, methods@[k] as int, old(self).stmts@.len() as int) by {
                assert(wf_fun_at(*old(self), methods@[k] as int));
            }
            lemma_grow_stmts(*old(self), *self);
        }
        id
    }

    /// A print statement.
    pub fn print_stmt(&mut self, print_token: Token, expr: ExprId) -> (id: StmtId)
        requires
            wf_ast(*old(self)),
            expr < old(self).exprs@.len(),
        ensures
            wf_ast(*final(self)),
            id == old(self).stmts@.len(),
            final(self).stmts@ == old(self).stmts@.push(
                Statement::Print(PrintStatement { print_token, expr }),
            ),
            final(self).exprs == old(self).exprs,
            final(self).funs == old(self).funs,
    {
        let id = self.stmts.len();
        self.stmts.push(Statement::Print(PrintStatement { print_token, expr }));
        proof {
            lemma_grow_stmts(*old(self), *self);
        }
        id
    }

    /// An expression statement.
    pub fn expr_stmt(&mut self, expr: ExprId) -> (id: StmtId)
        requires
            wf_ast(*old(self)),
            expr < old(self).exprs@.len(),
        ensures
            wf_ast(*final(self)),
            id == old(self).stmts@.len(),
            final(self).stmts@ == old(self).stmts@.push(
                Statement::Expr(ExpressionStatement { expr }),
            ),
            final(self).exprs == old(self).exprs,
            final(self).funs == old(self).funs,
    {
        let id = self.stmts.len();
        self.stmts.push(Statement::Expr(ExpressionStatement { expr }));
        proof {
            lemma_grow_stmts(*old(self), *self);
        }
        id
    }

    /// A block statement.
    pub fn block_stmt(&mut self, statements: Vec<StmtId>) -> (id: StmtId)
        requires
            wf_ast(*old(self)),
            forall|k: int| 0 <= k < statements@.len()
                ==> (#[trigger] statements@[k] as int) < old(self).stmts@.len(),
        ensures
            wf_ast(*final(self)),
            id == old(self).stmts@.len(),
            final(self).stmts@ == old(self).stmts@.push(
                Statement::Block(BlockStatement { statements }),
            ),
            final(self).exprs == old(self).exprs,
            final(self).funs == old(self).funs,
    {
        let id = self.stmts.len();
        self.stmts.push(Statement::Block(BlockStatement { statements }));
        proof {
            lemma_grow_stmts(*old(self), *self);
        }
        id
    }

    /// An if statement.
    pub fn if_stmt(&mut self, condition: ExprId, if_branch: StmtId, else_branch: Option<StmtId>) -> (id: StmtId)
        requires
            wf_ast(*old(self)),
            condition < old(self).exprs@.len(),
            if_branch < old(self).stmts@.len(),
            else_branch matches Some(e) ==> e < old(self).stmts@.len(),
        ensures
            wf_ast(*final(self)),
            id == old(self).stmts@.len(),
            final(self).stmts@ == old(self).stmts@.push(
                Statement::If(IfStatemnet { condition, if_branch, else_branch }),
            ),
            final(self).exprs == old(self).exprs,
            final(self).funs == old(self).funs,
    {
        let id = self.stmts.len();
        self.stmts.push(Statement::If(IfStatemnet { condition, if_branch, else_branch }));
        proof {
            lemma_grow_stmts(*old(self), *self);
        }
        id
    }

    /// A while statement.
    pub fn while_stmt(&mut self, condition: ExprId, body: StmtId) -> (id: StmtId)
        requires
            wf_ast(*old(self)),
            condition < old(self).exprs@.len(),
            body < old(self).stmts@.len(),
        ensures
            wf_ast(*final(self)),
            id == old(self).stmts@.len(),
            final(self).stmts@ == old(self).stmts@.push(
                Statement::While(WhileStatement { condition, body }),
            ),
            final(self).exprs == old(self).exprs,
            final(self).funs == old(self).funs,
    {
        let id = self.stmts.len();
        self.stmts.push(Statement::While(WhileStatement { condition, body }));
        proof {
            lemma_grow_stmts(*old(self), *self);
        }
        id
    }

    /// A return statement.
    pub fn return_stmt(&mut self, return_token: Token, value: Option<ExprId>) -> (id: StmtId)
        requires
            wf_ast(*old(self)),
            value matches Some(e) ==> e < old(self).exprs@.len(),
        ensures
            wf_ast(*final(self)),
            id == old(self).stmts@.len(),
            final(self).stmts@ == old(self).stmts@.push(
                Statement::Return(ReturnStatement { return_token, value }),
            ),
            final(self).exprs == old(self).exprs,
            final(self).funs == old(self).funs,
    {
        let id = self.stmts.len();
        self.stmts.push(Statement::Return(ReturnStatement { return_token, value }));
        proof {
            lemma_grow_stmts(*old(self), *self);
        }
        id
    }
}

} // verus!
