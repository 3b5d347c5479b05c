//! The static binding resolver: a single pass over the statement list, run
//! once before any evaluation.
//!
//! It maintains a stack of scope maps (name to declared/defined), the
//! ambient function context and the ambient class context.  For every
//! variable, `this` and `super` reference it records the 0-based hop count
//! to the innermost scope that declares the name — the distance the
//! evaluator later uses for direct-indexed environment access — into a side
//! table keyed by the node's index.  A reference that matches no scope is
//! left unresolved and is looked up by name in the global environment at
//! run time.  All scoping violations are accumulated as static errors; the
//! caller must refuse to execute a program that produced any.

use crate::ast::Ast;
use crate::ast::Expr;
use crate::ast::ExprId;
use crate::ast::Statement;
use crate::ast::StmtId;
use crate::ast::wf_ast;
use crate::ast::wf_expr_at;
use crate::ast::wf_fun_at;
use crate::ast::wf_stmt_at;
use crate::ast::fun_body_below;
use crate::token::str_eq;
use crate::token::Token;
use vstd::prelude::*;

verus! {

/// The kinds of static error the resolver can report.
#[derive(Debug, Clone, Copy, PartialEq, Eq, Structural)]
pub enum StaticErrorKind {
    DuplicateDeclaration,
    ReadOwnInitializer,
    ReturnOutsideFunction,
    ReturnFromInitializer,
    ThisOutsideClass,
    SuperOutsideClass,
    SuperWithoutSuperclass,
    SelfInheritance,
}

/// A static error: its kind and the offending token, for line reporting.
#[derive(Debug)]
pub struct StaticError {
    pub kind: StaticErrorKind,
    pub token: Token,
}

/// The ambient function context of the resolver.
#[derive(Debug, Clone, Copy, PartialEq, Eq, Structural)]
pub enum ScopeType {
    Function,
    Method,
    Initializer,
    Normal,
}

/// The ambient class context of the resolver.
#[derive(Debug, Clone, Copy, PartialEq, Eq, Structural)]
pub enum ClassType {
    Class,
    Subclass,
    NoClass,
}

/// The declared/defined state of `name` in one scope: the newest entry
/// wins; `Some(false)` means declared but not yet defined.
pub open spec fn scope_lookup(s: Seq<(String, bool)>, name: Seq<char>) -> Option<bool>
    decreases s.len(),
{
    if s.len() == 0 {
        None
    } else if s.last().0@ == name {
        Some(s.last().1)
    } else {
        scope_lookup(s.drop_last(), name)
    }
}

/// The 0-based hop count from the innermost scope to the nearest scope
/// declaring `name`, if any scope does.
pub open spec fn innermost_distance(scopes: Seq<Vec<(String, bool)>>, name: Seq<char>) -> Option<int>
    decreases scopes.len(),
{
    if scopes.len() == 0 {
        None
    } else if scope_lookup(scopes.last()@, name) is Some {
        Some(0)
    } else {
        match innermost_distance(scopes.drop_last(), name) {
            Some(d) => Some(d + 1),
            None => None,
        }
    }
}

/// The condition under which declaring `name` is a duplicate declaration:
/// some scope is active and its innermost one already has the name.
pub open spec fn duplicate_declaration(scopes: Seq<Vec<(String, bool)>>, name: Seq<char>) -> bool {
    scopes.len() > 0 && scope_lookup(scopes.last()@, name) is Some
}

/// The condition under which reading `name` is a read of the variable's own
/// initializer: the innermost scope has it declared but not yet defined.
pub open spec fn reads_own_initializer(scopes: Seq<Vec<(String, bool)>>, name: Seq<char>) -> bool {
    scopes.len() > 0 && scope_lookup(scopes.last()@, name) == Some(false)
}

/// Errors only accumulate: `b` extends `a`.
pub open spec fn errors_extended(a: Seq<StaticError>, b: Seq<StaticError>) -> bool {
    a.len() <= b.len() && forall|k: int| 0 <= k < a.len() ==> a[k] == (#[trigger] b[k])
}

/// Appending a binding makes the new name visible and hides nothing else.
proof fn lemma_scope_lookup_push(s: Seq<(String, bool)>, elem: (String, bool), name: Seq<char>)
    ensures
        scope_lookup(s.push(elem), name) == if elem.0@ == name {
            Some(elem.1)
        } else {
            scope_lookup(s, name)
        },
{
    assert(s.push(elem).last() == elem);
    assert(s.push(elem).drop_last() =~= s);
}

/// A reference to a name declared `n` lexical scopes outward — and shadowed
/// by none of the scopes in between — resolves to distance exactly `n`.
pub proof fn lemma_distance_counts_hops(scopes: Seq<Vec<(String, bool)>>, name: Seq<char>, n: int)
    requires
        0 <= n < scopes.len(),
        scope_lookup(scopes[scopes.len() - 1 - n]@, name) is Some,
        forall|m: int| scopes.len() - 1 - n < m < scopes.len()
            ==> scope_lookup((#[trigger] scopes[m])@, name) is None,
    ensures
        innermost_distance(scopes, name) == Some(n),
    decreases n,
{
    if n == 0 {
        assert(scopes.last() == scopes[scopes.len() - 1]);
    } else {
        assert(scope_lookup(scopes.last()@, name) is None);
        assert(scopes.drop_last()[scopes.drop_last().len() - 1 - (n - 1)]
            == scopes[scopes.len() - 1 - n]);
        assert forall|m: int| scopes.drop_last().len() - 1 - (n - 1) < m < scopes.drop_last().len()
            implies scope_lookup((#[trigger] scopes.drop_last()[m])@, name) is None by {
            assert(scopes.drop_last()[m] == scopes[m]);
        }
        lemma_distance_counts_hops(scopes.drop_last(), name, n - 1);
    }
}

/// Redeclaring a name in the scope that already declared it is reported as
/// a duplicate; redeclaring it in a freshly begun nested scope is not.
pub proof fn lemma_redeclaration_rule(
    scopes: Seq<Vec<(String, bool)>>,
    name: Seq<char>,
    fresh: Vec<(String, bool)>,
)
    requires
        scopes.len() > 0,
        scope_lookup(scopes.last()@, name) is Some,
        fresh@.len() == 0,
    ensures
        duplicate_declaration(scopes, name),
        !duplicate_declaration(scopes.push(fresh), name),
{
    assert(scopes.push(fresh).last() == fresh);
}

/// The state of `name` in the innermost of the given scopes, if any scope
/// is active.
fn scope_find(scope: &Vec<(String, bool)>, name: &str) -> (r: Option<bool>)
    ensures
        r == scope_lookup(scope@, name@),
{
    let mut i = scope.len();
    proof {
        assert(scope@.take(scope@.len() as int) =~= scope@);
    }
    while i > 0
        invariant
            i <= scope@.len(),
            scope_lookup(scope@, name@) == scope_lookup(scope@.take(i as int), name@),
        decreases i,
    {
        i = i - 1;
        proof {
            assert(scope@.take(i + 1).last() == scope@[i as int]);
            assert(scope@.take(i + 1).drop_last() =~= scope@.take(i as int));
        }
        if str_eq(scope[i].0.as_str(), name) {
            return Some(scope[i].1);
        }
    }
    None
}

/// The static pass: scope stack, ambient contexts, accumulated errors and
/// the distance side table it fills in.
#[derive(Debug)]
pub struct Resolver {
    pub scopes: Vec<Vec<(String, bool)>>,
    pub current_scope: ScopeType,
    pub current_class: ClassType,
    pub errors: Vec<StaticError>,
    pub distances: Vec<Option<usize>>,
}

impl Resolver {
    pub fn new() -> (r: Resolver)
        ensures
            r.scopes@.len() == 0,
            r.current_scope == ScopeType::Normal,
            r.current_class == ClassType::NoClass,
            r.errors@.len() == 0,
            r.distances@.len() == 0,
    {
        Resolver {
            scopes: Vec::new(),
            current_scope: ScopeType::Normal,
            current_class: ClassType::NoClass,
            errors: Vec::new(),
            distances: Vec::new(),
        }
    }

    /// Whether any static error has been recorded; a program with one must
    /// not be executed.
    pub fn has_err(&self) -> (r: bool)
        ensures
            r == (self.errors@.len() > 0),
    {
        self.errors.len() > 0
    }

    /// Sizes the distance table for the given tree: one empty slot per
    /// expression node.
    pub fn prepare(&mut self, ast: &Ast)
        ensures
            final(self).distances@.len() == ast.exprs@.len(),
            forall|j: int| 0 <= j < ast.exprs@.len() ==> final(self).distances@[j] is None,
            final(self).scopes == old(self).scopes,
            final(self).current_scope == old(self).current_scope,
            final(self).current_class == old(self).current_class,
            final(self).errors == old(self).errors,
    {
        let mut table: Vec<Option<usize>> = Vec::new();
        let target = ast.exprs.len();
        while table.len() < target
            invariant
                table@.len() <= target,
                forall|j: int| 0 <= j < table@.len() ==> table@[j] is None,
            decreases target - table@.len(),
        {
            table.push(None);
        }
        self.distances = table;
    }

    /// Pushes a fresh, empty innermost scope.
    pub fn begin_scope(&mut self)
        ensures
            final(self).scopes@.len() == old(self).scopes@.len() + 1,
            forall|k: int| 0 <= k < old(self).scopes@.len()
                ==> final(self).scopes@[k] == old(self).scopes@[k],
            final(self).scopes@.last()@.len() == 0,
            final(self).current_scope == old(self).current_scope,
            final(self).current_class == old(self).current_class,
            final(self).errors == old(self).errors,
            final(self).distances == old(self).distances,
    {
        self.scopes.push(Vec::new());
    }

    /// Pops the innermost scope; without any active scope, does nothing.
    pub fn end_scope(&mut self)
        ensures
            old(self).scopes@.len() > 0 ==> final(self).scopes@ == old(self).scopes@.drop_last(),
            old(self).scopes@.len() == 0 ==> final(self).scopes@ == old(self).scopes@,
            final(self).current_scope == old(self).current_scope,
            final(self).current_class == old(self).current_class,
            final(self).errors == old(self).errors,
            final(self).distances == old(self).distances,
    {
        if self.scopes.len() > 0 {
            let _ = self.scopes.pop();
        }
    }

    /// Declares `name` in the innermost scope as "declared, not defined".
    /// Declaring a name the innermost scope already has is recorded as a
    /// duplicate declaration.  Outside any scope (at the top level) nothing
    /// is tracked.
    pub fn declare(&mut self, name: &Token)
        ensures
            final(self).scopes@.len() == old(self).scopes@.len(),
            forall|k: int| 0 <= k < old(self).scopes@.len() - 1
                ==> final(self).scopes@[k] == old(self).scopes@[k],
            final(self).current_scope == old(self).current_scope,
            final(self).current_class == old(self).current_class,
            final(self).distances == old(self).distances,
            old(self).scopes@.len() == 0 ==> final(self).scopes@ == old(self).scopes@
                && final(self).errors@ == old(self).errors@,
            old(self).scopes@.len() > 0 ==> {
                &&& scope_lookup(final(self).scopes@.last()@, name.lexeme@) == Some(false)
                &&& forall|o: Seq<char>| o != name.lexeme@
                    ==> scope_lookup(final(self).scopes@.last()@, o)
                        == scope_lookup(old(self).scopes@.last()@, o)
                &&& if duplicate_declaration(old(self).scopes@, name.lexeme@) {
                    final(self).errors@ == old(self).errors@.push(
                        StaticError { kind: StaticErrorKind::DuplicateDeclaration, token: *name },
                    )
                } else {
                    final(self).errors@ == old(self).errors@
                }
            },
    {
        let n = self.scopes.len();
        if n == 0 {
            return;
        }
        let dup = scope_find(&self.scopes[n - 1], name.lexeme.as_str());
        if dup.is_some() {
            self.errors.push(StaticError { kind: StaticErrorKind::DuplicateDeclaration, token: name.clone() });
        }
        let ghost prev = self.scopes@;
        let key = name.lexeme.clone();
        self.scopes[n - 1].push((key, false));
        proof {
            assert(self.scopes@ =~= prev.update(n - 1, self.scopes@[n - 1 as int]));
            assert(self.scopes@.last()@ =~= prev.last()@.push(self.scopes@.last()@.last()));
            lemma_scope_lookup_push(prev.last()@, self.scopes@.last()@.last(), name.lexeme@);
            assert forall|o: Seq<char>| o != name.lexeme@ implies scope_lookup(self.scopes@.last()@, o)
                == scope_lookup(prev.last()@, o) by {
                lemma_scope_lookup_push(prev.last()@, self.scopes@.last()@.last(), o);
            }
        }
    }

    /// Marks `name` in the innermost scope as defined, if it is declared
    /// there; otherwise does nothing.
    pub fn define(&mut self, name: &str)
        ensures
            final(self).scopes@.len() == old(self).scopes@.len(),
            forall|k: int| 0 <= k < old(self).scopes@.len() - 1
                ==> final(self).scopes@[k] == old(self).scopes@[k],
            final(self).current_scope == old(self).current_scope,
            final(self).current_class == old(self).current_class,
            final(self).errors == old(self).errors,
            final(self).distances == old(self).distances,
            old(self).scopes@.len() == 0 ==> final(self).scopes@ == old(self).scopes@,
            old(self).scopes@.len() > 0 ==> {
                &&& if scope_lookup(old(self).scopes@.last()@, name@) is Some {
                    scope_lookup(final(self).scopes@.last()@, name@) == Some(true)
                } else {
                    final(self).scopes@ == old(self).scopes@
                }
                &&& forall|o: Seq<char>| o != name@
                    ==> scope_lookup(final(self).scopes@.last()@, o)
                        == scope_lookup(old(self).scopes@.last()@, o)
            },
    {
        let n = self.scopes.len();
        if n == 0 {
            return;
        }
        let present = scope_find(&self.scopes[n - 1], name);
        if present.is_some() {
            let ghost prev = self.scopes@;
            let key: String = name.to_owned();
            self.scopes[n - 1].push((key, true));
            proof {
                assert(self.scopes@ =~= prev.update(n - 1, self.scopes@[n - 1 as int]));
                assert(self.scopes@.last()@ =~= prev.last()@.push(self.scopes@.last()@.last()));
                lemma_scope_lookup_push(prev.last()@, self.scopes@.last()@.last(), name@);
                assert forall|o: Seq<char>| o != name@ implies scope_lookup(self.scopes@.last()@, o)
                    == scope_lookup(prev.last()@, o) by {
                    lemma_scope_lookup_push(prev.last()@, self.scopes@.last()@.last(), o);
                }
            }
        }
    }

    /// Inserts `name` into the innermost scope directly as defined: used
    /// for the synthetic `this` and `super` bindings of a class body.
    fn put_defined(&mut self, name: &str)
        requires
            old(self).scopes@.len() > 0,
        ensures
            final(self).scopes@.len() == old(self).scopes@.len(),
            forall|k: int| 0 <= k < old(self).scopes@.len() - 1
                ==> final(self).scopes@[k] == old(self).scopes@[k],
            final(self).current_scope == old(self).current_scope,
            final(self).current_class == old(self).current_class,
            final(self).errors == old(self).errors,
            final(self).distances == old(self).distances,
            scope_lookup(final(self).scopes@.last()@, name@) == Some(true),
            forall|o: Seq<char>| o != name@
                ==> scope_lookup(final(self).scopes@.last()@, o)
                    == scope_lookup(old(self).scopes@.last()@, o),
    {
        let n = self.scopes.len();
        let ghost prev = self.scopes@;
        let key: String = name.to_owned();
        self.scopes[n - 1].push((key, true));
        proof {
            assert(self.scopes@ =~= prev.update(n - 1, self.scopes@[n - 1 as int]));
            assert(self.scopes@.last()@ =~= prev.last()@.push(self.scopes@.last()@.last()));
            lemma_scope_lookup_push(prev.last()@, self.scopes@.last()@.last(), name@);
            assert forall|o: Seq<char>| o != name@ implies scope_lookup(self.scopes@.last()@, o)
                == scope_lookup(prev.last()@, o) by {
                lemma_scope_lookup_push(prev.last()@, self.scopes@.last()@.last(), o);
            }
        }
    }

    /// Records, for the node `id`, the hop count from the innermost scope
    /// to the nearest scope declaring `name`; with no match the slot is
    /// left as it is and the reference stays global.
    pub fn annotate(&mut self, name: &str, id: ExprId)
        requires
            id < old(self).distances@.len(),
        ensures
            final(self).scopes == old(self).scopes,
            final(self).current_scope == old(self).current_scope,
            final(self).current_class == old(self).current_class,
            final(self).errors == old(self).errors,
            final(self).distances@.len() == old(self).distances@.len(),
            forall|j: int| 0 <= j < old(self).distances@.len() && j != id
                ==> final(self).distances@[j] == old(self).distances@[j],
            match innermost_distance(old(self).scopes@, name@) {
                Some(d) => final(self).distances@[id as int] == Some(d as usize),
                None => final(self).distances@[id as int] == old(self).distances@[id as int],
            },
    {
        let n = self.scopes.len();
        let mut k: usize = 0;
        proof {
            assert(self.scopes@.take(n as int) =~= self.scopes@);
            lemma_innermost_unroll(self.scopes@, name@, 0);
        }
        while k < n
            invariant
                k <= n,
                n == self.scopes@.len(),
                *self == *old(self),
                id < self.distances@.len(),
                forall|m: int| n - k <= m < n
                    ==> scope_lookup((#[trigger] self.scopes@[m])@, name@) is None,
            decreases n - k,
        {
            let found = scope_find(&self.scopes[n - 1 - k], name);
            if found.is_some() {
                proof {
                    lemma_innermost_unroll(self.scopes@, name@, k as int);
                    assert(self.scopes@.take(n - k).last() == self.scopes@[n - 1 - k as int]);
                }
                let ghost prevd = self.distances@;
                self.distances[id] = Some(k);
                proof {
                    assert(self.distances@ =~= prevd.update(id as int, Some(k as usize)));
                }
                return;
            }
            k = k + 1;
        }
        proof {
            lemma_innermost_unroll(self.scopes@, name@, n as int);
            assert(self.scopes@.take(0) =~= Seq::<Vec<(String, bool)>>::empty());
        }
    }
}

impl Resolver {
    /// Resolves one expression tree: records distances for every variable,
    /// `this` and `super` reference in it and accumulates scoping errors.
    /// Leaves every scope and both ambient contexts as they were.
    pub fn resolve_expr(&mut self, ast: &Ast, e: ExprId)
        requires
            wf_ast(*ast),
            e < ast.exprs@.len(),
            old(self).distances@.len() == ast.exprs@.len(),
        ensures
            final(self).scopes == old(self).scopes,
            final(self).current_scope == old(self).current_scope,
            final(self).current_class == old(self).current_class,
            final(self).distances@.len() == old(self).distances@.len(),
            forall|j: int| (e as int) < j < old(self).distances@.len()
                ==> final(self).distances@[j] == old(self).distances@[j],
            errors_extended(old(self).errors@, final(self).errors@),
            match ast.exprs@[e as int] {
                Expr::Literal(_) => final(self).distances@ == old(self).distances@
                    && final(self).errors@ == old(self).errors@,
                Expr::Variable { name } => {
                    &&& match innermost_distance(old(self).scopes@, name.lexeme@) {
                        Some(d) => final(self).distances@[e as int] == Some(d as usize),
                        None => final(self).distances@[e as int] == old(self).distances@[e as int],
                    }
                    &&& if reads_own_initializer(old(self).scopes@, name.lexeme@) {
                        final(self).errors@ == old(self).errors@.push(
                            (StaticError { kind: StaticErrorKind::ReadOwnInitializer, token: name }),
                        )
                    } else {
                        final(self).errors@ == old(self).errors@
                    }
                },
                Expr::Asign { name, .. } => match innermost_distance(old(self).scopes@, name.lexeme@) {
                    Some(d) => final(self).distances@[e as int] == Some(d as usize),
                    None => final(self).distances@[e as int] == old(self).distances@[e as int],
                },
                Expr::This { keyword } => {
                    if old(self).current_class is NoClass {
                        final(self).errors@ == old(self).errors@.push(
                            (StaticError { kind: StaticErrorKind::ThisOutsideClass, token: keyword }),
                        ) && final(self).distances@ == old(self).distances@
                    } else {
                        final(self).errors@ == old(self).errors@
                            && match innermost_distance(old(self).scopes@, keyword.lexeme@) {
                            Some(d) => final(self).distances@[e as int] == Some(d as usize),
                            None => final(self).distances@[e as int]
                                == old(self).distances@[e as int],
                        }
                    }
                },
                Expr::Super { keyword, .. } => match old(self).current_class {
                    ClassType::NoClass => final(self).errors@ == old(self).errors@.push(
                        (StaticError { kind: StaticErrorKind::SuperOutsideClass, token: keyword }),
                    ) && final(self).distances@ == old(self).distances@,
                    ClassType::Class => final(self).errors@ == old(self).errors@.push(
                        (StaticError {
                            kind: StaticErrorKind::SuperWithoutSuperclass,
                            token: keyword,
                        }),
                    ) && final(self).distances@ == old(self).distances@,
                    ClassType::Subclass => final(self).errors@ == old(self).errors@
                        && match innermost_distance(old(self).scopes@, keyword.lexeme@) {
                        Some(d) => final(self).distances@[e as int] == Some(d as usize),
                        None => final(self).distances@[e as int] == old(self).distances@[e as int],
                    },
                },
                _ => true,
            },
        decreases e,
    {
        proof {
            assert(wf_expr_at(*ast, e as int));
        }
        match &ast.exprs[e] {
            Expr::Literal(_) => {},
            Expr::Grouping(sub) => {
                self.resolve_expr(ast, *sub);
            },
            Expr::Unary { expr, .. } => {
                self.resolve_expr(ast, *expr);
            },
            Expr::Binary { left, right, .. } => {
                self.resolve_expr(ast, *left);
                self.resolve_expr(ast, *right);
            },
            Expr::LogicalOr { left, right } => {
                self.resolve_expr(ast, *left);
                self.resolve_expr(ast, *right);
            },
            Expr::LogicalAnd { left, right } => {
                self.resolve_expr(ast, *left);
                self.resolve_expr(ast, *right);
            },
            Expr::Variable { name } => {
                let n = self.scopes.len();
                if n > 0 {
                    match scope_find(&self.scopes[n - 1], name.lexeme.as_str()) {
                        Some(defined) => {
                            if !defined {
                                self.errors.push(StaticError {
                                    kind: StaticErrorKind::ReadOwnInitializer,
                                    token: name.clone(),
                                });
                            }
                        },
                        None => {},
                    }
                }
                self.annotate(name.lexeme.as_str(), e);
            },
            Expr::Asign { name, value } => {
                self.resolve_expr(ast, *value);
                self.annotate(name.lexeme.as_str(), e);
            },
            Expr::Call { callee, args, .. } => {
                self.resolve_expr(ast, *callee);
                let mut k: usize = 0;
                while k < args.len()
                    invariant
                        wf_ast(*ast),
                        e < ast.exprs@.len(),
                        self.distances@.len() == ast.exprs@.len(),
                        ast.exprs@[e as int] matches Expr::Call { args: a2, .. } && a2 == *args,
                        forall|m: int| 0 <= m < args@.len()
                            ==> (#[trigger] args@[m] as int) < e as int,
                        self.scopes == old(self).scopes,
                        self.current_scope == old(self).current_scope,
                        self.current_class == old(self).current_class,
                        self.distances@.len() == old(self).distances@.len(),
                        forall|j: int| (e as int) < j < old(self).distances@.len()
                            ==> self.distances@[j] == old(self).distances@[j],
                        errors_extended(old(self).errors@, self.errors@),
                    decreases args@.len() - k,
                {
                    self.resolve_expr(ast, args[k]);
                    k = k + 1;
                }
            },
            Expr::Get { object, .. } => {
                self.resolve_expr(ast, *object);
            },
            Expr::SetProp { object, value, .. } => {
                self.resolve_expr(ast, *value);
                self.resolve_expr(ast, *object);
            },
            Expr::This { keyword } => {
                match self.current_class {
                    ClassType::NoClass => {
                        self.errors.push(StaticError {
                            kind: StaticErrorKind::ThisOutsideClass,
                            token: keyword.clone(),
                        });
                    },
                    _ => {
                        self.annotate(keyword.lexeme.as_str(), e);
                    },
                }
            },
            Expr::Super { keyword, .. } => {
                match self.current_class {
                    ClassType::NoClass => {
                        self.errors.push(StaticError {
                            kind: StaticErrorKind::SuperOutsideClass,
                            token: keyword.clone(),
                        });
                    },
                    ClassType::Class => {
                        self.errors.push(StaticError {
                            kind: StaticErrorKind::SuperWithoutSuperclass,
                            token: keyword.clone(),
                        });
                    },
                    ClassType::Subclass => {
                        self.annotate(keyword.lexeme.as_str(), e);
                    },
                }
            },
        }
    }

    /// Resolves the body of one function or method: enters the ambient
    /// function context, opens the parameter scope, declares and defines
    /// the parameters, resolves the body and restores everything.
    fn resolve_function(
        &mut self,
        ast: &Ast,
        params: &Vec<Token>,
        body: &Vec<StmtId>,
        scope_type: ScopeType,
        bound: Ghost<int>,
    )
        requires
            wf_ast(*ast),
            old(self).distances@.len() == ast.exprs@.len(),
            0 <= bound@,
            forall|k: int| 0 <= k < body@.len() ==> (#[trigger] body@[k] as int) < bound@,
            forall|k: int| 0 <= k < body@.len()
                ==> (#[trigger] body@[k] as int) < ast.stmts@.len(),
        ensures
            final(self).scopes@.len() == old(self).scopes@.len(),
            forall|k: int| 0 <= k < old(self).scopes@.len()
                ==> final(self).scopes@[k] == old(self).scopes@[k],
            final(self).current_scope == old(self).current_scope,
            final(self).current_class == old(self).current_class,
            final(self).distances@.len() == old(self).distances@.len(),
            errors_extended(old(self).errors@, final(self).errors@),
            (scope_type == ScopeType::Initializer && exists|k2: int| 0 <= k2 < body@.len()
                && (ast.stmts@[#[trigger] body@[k2] as int] matches Statement::Return(r2)
                    && r2.value is Some))
                ==> final(self).errors@.len() > old(self).errors@.len(),
        decreases bound@, 0int,
    {
        let old_scope = self.current_scope;
        self.current_scope = scope_type;
        self.begin_scope();
        let mut i: usize = 0;
        while i < params.len()
            invariant
                self.scopes@.len() == old(self).scopes@.len() + 1,
                forall|k: int| 0 <= k < old(self).scopes@.len()
                    ==> self.scopes@[k] == old(self).scopes@[k],
                self.current_scope == scope_type,
                self.current_class == old(self).current_class,
                self.distances@.len() == old(self).distances@.len(),
                errors_extended(old(self).errors@, self.errors@),
            decreases params@.len() - i,
        {
            self.declare(&params[i]);
            self.define(params[i].lexeme.as_str());
            i = i + 1;
        }
        let mut k: usize = 0;
        while k < body.len()
            invariant
                wf_ast(*ast),
                self.distances@.len() == ast.exprs@.len(),
                forall|m: int| 0 <= m < body@.len() ==> (#[trigger] body@[m] as int) < bound@,
                forall|m: int| 0 <= m < body@.len()
                    ==> (#[trigger] body@[m] as int) < ast.stmts@.len(),
                self.scopes@.len() == old(self).scopes@.len() + 1,
                forall|m: int| 0 <= m < old(self).scopes@.len()
                    ==> self.scopes@[m] == old(self).scopes@[m],
                self.current_scope == scope_type,
                self.current_class == old(self).current_class,
                self.distances@.len() == old(self).distances@.len(),
                errors_extended(old(self).errors@, self.errors@),
                scope_type == ScopeType::Initializer ==> forall|m: int| 0 <= m < k
                    ==> ((ast.stmts@[#[trigger] body@[m] as int] matches Statement::Return(r2)
                        && r2.value is Some)
                        ==> self.errors@.len() > old(self).errors@.len()),
            decreases body@.len() - k,
        {
            self.resolve_stmt(ast, body[k]);
            k = k + 1;
        }
        self.end_scope();
        self.current_scope = old_scope;
    }

    /// Resolves one statement: declares what it declares, resolves its
    /// parts, and accumulates any scoping errors.  The scope depth and
    /// both ambient contexts are restored on exit, and only the innermost
    /// scope can have gained or changed bindings.
    pub fn resolve_stmt(&mut self, ast: &Ast, s: StmtId)
        requires
            wf_ast(*ast),
            s < ast.stmts@.len(),
            old(self).distances@.len() == ast.exprs@.len(),
        ensures
            final(self).scopes@.len() == old(self).scopes@.len(),
            forall|k: int| 0 <= k < old(self).scopes@.len() - 1
                ==> final(self).scopes@[k] == old(self).scopes@[k],
            final(self).current_scope == old(self).current_scope,
            final(self).current_class == old(self).current_class,
            final(self).distances@.len() == old(self).distances@.len(),
            errors_extended(old(self).errors@, final(self).errors@),
            old(self).scopes@.len() > 0 ==> forall|n: Seq<char>|
                (#[trigger] scope_lookup(old(self).scopes@.last()@, n)) is Some
                ==> scope_lookup(
                    final(self).scopes@[old(self).scopes@.len() - 1]@,
                    n,
                ) is Some,
            match ast.stmts@[s as int] {
                Statement::Return(r) => {
                    &&& (old(self).current_scope == ScopeType::Normal
                        ==> final(self).errors@.len() > old(self).errors@.len()
                            && final(self).errors@[old(self).errors@.len() as int]
                                == (StaticError {
                                kind: StaticErrorKind::ReturnOutsideFunction,
                                token: r.return_token,
                            }))
                    &&& (old(self).current_scope != ScopeType::Normal && r.value is None
                        ==> final(self).errors@ == old(self).errors@)
                    &&& (old(self).current_scope == ScopeType::Initializer && r.value is Some
                        ==> final(self).errors@.len() > old(self).errors@.len()
                            && final(self).errors@[old(self).errors@.len() as int]
                                == (StaticError {
                                kind: StaticErrorKind::ReturnFromInitializer,
                                token: r.return_token,
                            }))
                },
                Statement::VarDecl(v) => old(self).scopes@.len() > 0 ==> {
                    &&& (duplicate_declaration(old(self).scopes@, v.name.lexeme@)
                        ==> final(self).errors@.len() > old(self).errors@.len()
                            && final(self).errors@[old(self).errors@.len() as int]
                                == (StaticError {
                                kind: StaticErrorKind::DuplicateDeclaration,
                                token: v.name,
                            }))
                    &&& (!duplicate_declaration(old(self).scopes@, v.name.lexeme@)
                        && v.initializer is None
                        ==> final(self).errors@ == old(self).errors@)
                    &&& scope_lookup(final(self).scopes@.last()@, v.name.lexeme@) == Some(true)
                    &&& (v.initializer matches Some(e2)
                        ==> (ast.exprs@[e2 as int] matches Expr::Variable { name: n2 }
                        ==> (n2.lexeme@ == v.name.lexeme@
                        ==> final(self).errors@.len() > old(self).errors@.len())))
                },
                Statement::ClassDecl(c) => {
                    &&& ((c.superclass matches Some(sup)
                        && ast.exprs@[sup as int] matches Expr::Variable { name: sup_name }
                        && sup_name.lexeme@ == c.name.lexeme@)
                        ==> exists|k: int|
                            old(self).errors@.len() <= k < final(self).errors@.len()
                            && (#[trigger] final(self).errors@[k]).kind
                                == StaticErrorKind::SelfInheritance)
                    &&& ((exists|m: int, k2: int| 0 <= m < c.methods@.len()
                        && ast.funs@[c.methods@[m] as int].name.lexeme@ == "init"@
                        && 0 <= k2 < ast.funs@[c.methods@[m] as int].body@.len()
                        && ((#[trigger] ast.stmts@[ast.funs@[c.methods@[m] as int].body@[k2] as int])
                            matches Statement::Return(r2) && r2.value is Some))
                        ==> final(self).errors@.len() > old(self).errors@.len())
                },
                Statement::Print(pr) => ast.exprs@[pr.expr as int] matches Expr::Variable {
                    name,
                } ==> match innermost_distance(old(self).scopes@, name.lexeme@) {
                    Some(d) => final(self).distances@[pr.expr as int] == Some(d as usize),
                    None => final(self).distances@[pr.expr as int]
                        == old(self).distances@[pr.expr as int],
                },
                Statement::Expr(es) => ast.exprs@[es.expr as int] matches Expr::Variable {
                    name,
                } ==> match innermost_distance(old(self).scopes@, name.lexeme@) {
                    Some(d) => final(self).distances@[es.expr as int] == Some(d as usize),
                    None => final(self).distances@[es.expr as int]
                        == old(self).distances@[es.expr as int],
                },
                Statement::Block(b) => {
                    &&& forall|k: int| 0 <= k < old(self).scopes@.len()
                        ==> final(self).scopes@[k] == old(self).scopes@[k]
                    &&& ((exists|i: int, j: int| 0 <= i < j < b.statements@.len()
                        && (ast.stmts@[#[trigger] b.statements@[i] as int]
                            matches Statement::VarDecl(v1)
                            && (ast.stmts@[#[trigger] b.statements@[j] as int]
                                matches Statement::VarDecl(v2)
                                && v1.name.lexeme@ == v2.name.lexeme@)))
                        ==> final(self).errors@.len() > old(self).errors@.len())
                    &&& ((exists|i: int| 0 <= i < b.statements@.len()
                        && (ast.stmts@[#[trigger] b.statements@[i] as int]
                            matches Statement::VarDecl(v1)
                            && (v1.initializer matches Some(e2)
                                && (ast.exprs@[e2 as int] matches Expr::Variable { name: n2 }
                                    && n2.lexeme@ == v1.name.lexeme@))))
                        ==> final(self).errors@.len() > old(self).errors@.len())
                },
                _ => true,
            },
        decreases s, 1int,
    {
        proof {
            assert(wf_stmt_at(*ast, s as int));
        }
        match &ast.stmts[s] {
            Statement::FunDecl(f) => {
                let d = &ast.funs[*f];
                proof {
                    assert(wf_fun_at(*ast, *f as int));
                    assert(fun_body_below(*ast, *f as int, s as int));
                }
                self.declare(&d.name);
                self.define(d.name.lexeme.as_str());
                let ghost defined = *self;
                self.resolve_function(ast, &d.params, &d.body, ScopeType::Function, Ghost(s as int));
                proof {
                    if old(self).scopes@.len() > 0 {
                        assert forall|n: Seq<char>|
                            (#[trigger] scope_lookup(old(self).scopes@.last()@, n)) is Some
                            implies scope_lookup(
                                self.scopes@[old(self).scopes@.len() - 1]@,
                                n,
                            ) is Some by {
                            assert(scope_lookup(defined.scopes@.last()@, n) is Some);
                            assert(self.scopes@[old(self).scopes@.len() - 1]
                                == defined.scopes@[old(self).scopes@.len() - 1]);
                        }
                    }
                }
            },
            Statement::VarDecl(v) => {
                self.declare(&v.name);
                let ghost declared = *self;
                match v.initializer {
                    Some(init) => {
                        self.resolve_expr(ast, init);
                        proof {
                            if old(self).scopes@.len() > 0 {
                                match ast.exprs@[init as int] {
                                    Expr::Variable { name: n2 } => {
                                        if n2.lexeme@ == v.name.lexeme@ {
                                            assert(reads_own_initializer(
                                                declared.scopes@,
                                                n2.lexeme@,
                                            ));
                                            assert(self.errors@.len()
                                                > old(self).errors@.len());
                                        }
                                    },
                                    _ => {},
                                }
                            }
                        }
                    },
                    None => {},
                }
                proof {
                    if old(self).scopes@.len() > 0 {
                        assert(scope_lookup(declared.scopes@.last()@, v.name.lexeme@)
                            == Some(false));
                    }
                }
                self.define(v.name.lexeme.as_str());
            },
            Statement::ClassDecl(c) => {
                let prev_class = self.current_class;
                self.current_class = ClassType::Class;
                self.declare(&c.name);
                self.define(c.name.lexeme.as_str());
                let ghost defined = *self;
                let ghost err_mark: int = self.errors@.len() as int;
                let has_super = c.superclass.is_some();
                if let Some(sup) = c.superclass {
                    match &ast.exprs[sup] {
                        Expr::Variable { name } => {
                            if str_eq(name.lexeme.as_str(), c.name.lexeme.as_str()) {
                                self.errors.push(StaticError {
                                    kind: StaticErrorKind::SelfInheritance,
                                    token: name.clone(),
                                });
                            }
                        },
                        _ => {
                            proof {
                                assert(false);
                            }
                        },
                    }
                    self.current_class = ClassType::Subclass;
                    self.resolve_expr(ast, sup);
                    self.begin_scope();
                    self.put_defined("super");
                }
                self.begin_scope();
                self.put_defined("this");
                let mut k: usize = 0;
                while k < c.methods.len()
                    invariant
                        wf_ast(*ast),
                        self.distances@.len() == ast.exprs@.len(),
                        forall|m: int| 0 <= m < c.methods@.len()
                            ==> (#[trigger] c.methods@[m] as int) < ast.funs@.len()
                                && fun_body_below(*ast, c.methods@[m] as int, s as int),
                        self.scopes@.len() == old(self).scopes@.len() + 1
                            + (if has_super { 1int } else { 0int }),
                        forall|m: int| 0 <= m < old(self).scopes@.len() - 1
                            ==> self.scopes@[m] == old(self).scopes@[m],
                        self.current_scope == old(self).current_scope,
                        self.current_class == (if has_super { ClassType::Subclass } else {
                            ClassType::Class
                        }),
                        self.distances@.len() == old(self).distances@.len(),
                        errors_extended(old(self).errors@, self.errors@),
                        ast.stmts@[s as int] matches Statement::ClassDecl(c2) && c2 == *c,
                        (c.superclass matches Some(sup)
                            && ast.exprs@[sup as int] matches Expr::Variable { name: sup_name }
                            && sup_name.lexeme@ == c.name.lexeme@)
                            ==> err_mark < self.errors@.len()
                                && self.errors@[err_mark].kind == StaticErrorKind::SelfInheritance
                                && old(self).errors@.len() <= err_mark,
                        old(self).scopes@.len() > 0 ==> self.scopes@[old(self).scopes@.len() - 1]
                            == defined.scopes@[old(self).scopes@.len() - 1],
                        forall|m2: int| 0 <= m2 < k
                            ==> ((ast.funs@[#[trigger] c.methods@[m2] as int].name.lexeme@
                                == "init"@ && exists|k2: int|
                                0 <= k2 < ast.funs@[c.methods@[m2] as int].body@.len()
                                && ((#[trigger] ast.stmts@[ast.funs@[c.methods@[
                                    m2
                                ] as int].body@[k2] as int]) matches Statement::Return(r2)
                                    && r2.value is Some))
                                ==> self.errors@.len() > old(self).errors@.len()),
                    decreases c.methods@.len() - k,
                {
                    let m = c.methods[k];
                    let d = &ast.funs[m];
                    proof {
                        assert(wf_fun_at(*ast, m as int));
                        assert(fun_body_below(*ast, m as int, s as int));
                    }
                    let is_init = str_eq(d.name.lexeme.as_str(), "init");
                    let scope_type = if is_init {
                        ScopeType::Initializer
                    } else {
                        ScopeType::Method
                    };
                    let ghost before2 = *self;
                    self.resolve_function(ast, &d.params, &d.body, scope_type, Ghost(s as int));
                    proof {
                        assert forall|m2: int| 0 <= m2 < k + 1
                            implies ((ast.funs@[#[trigger] c.methods@[m2] as int].name.lexeme@
                                == "init"@ && exists|k2: int|
                                0 <= k2 < ast.funs@[c.methods@[m2] as int].body@.len()
                                && ((#[trigger] ast.stmts@[ast.funs@[c.methods@[
                                    m2
                                ] as int].body@[k2] as int]) matches Statement::Return(r2)
                                    && r2.value is Some))
                                ==> self.errors@.len() > old(self).errors@.len()) by {
                            if m2 == k {
                                assert(c.methods@[m2] == m);
                                if ast.funs@[m as int].name.lexeme@ == "init"@ {
                                    assert(scope_type == ScopeType::Initializer);
                                }
                            } else {
                                assert(before2.errors@.len() <= self.errors@.len());
                            }
                        }
                    }
                    k = k + 1;
                }
                let ghost after_loop = *self;
                self.end_scope();
                if has_super {
                    self.end_scope();
                }
                self.current_class = prev_class;
                proof {
                    if old(self).scopes@.len() > 0 {
                        assert(self.scopes@[old(self).scopes@.len() - 1]
                            == after_loop.scopes@[old(self).scopes@.len() - 1]);
                        assert forall|n: Seq<char>|
                            (#[trigger] scope_lookup(old(self).scopes@.last()@, n)) is Some
                            implies scope_lookup(
                                self.scopes@[old(self).scopes@.len() - 1]@,
                                n,
                            ) is Some by {
                            assert(scope_lookup(defined.scopes@.last()@, n) is Some);
                        }
                    }
                }
            },
            Statement::Print(p) => {
                self.resolve_expr(ast, p.expr);
            },
            Statement::Expr(es) => {
                self.resolve_expr(ast, es.expr);
            },
            Statement::Block(b) => {
                self.begin_scope();
                let mut k: usize = 0;
                while k < b.statements.len()
                    invariant
                        wf_ast(*ast),
                        s < ast.stmts@.len(),
                        self.distances@.len() == ast.exprs@.len(),
                        forall|m: int| 0 <= m < b.statements@.len()
                            ==> (#[trigger] b.statements@[m] as int) < s as int,
                        self.scopes@.len() == old(self).scopes@.len() + 1,
                        forall|m: int| 0 <= m < old(self).scopes@.len()
                            ==> self.scopes@[m] == old(self).scopes@[m],
                        self.current_scope == old(self).current_scope,
                        self.current_class == old(self).current_class,
                        self.distances@.len() == old(self).distances@.len(),
                        errors_extended(old(self).errors@, self.errors@),
                        forall|i: int| 0 <= i < k
                            ==> (ast.stmts@[#[trigger] b.statements@[i] as int]
                                matches Statement::VarDecl(v1)
                                ==> scope_lookup(self.scopes@.last()@, v1.name.lexeme@) is Some),
                        forall|i: int, j: int| 0 <= i < j < k
                            ==> ((ast.stmts@[#[trigger] b.statements@[i] as int]
                                matches Statement::VarDecl(v1)
                                && (ast.stmts@[#[trigger] b.statements@[j] as int]
                                    matches Statement::VarDecl(v2)
                                    && v1.name.lexeme@ == v2.name.lexeme@))
                                ==> self.errors@.len() > old(self).errors@.len()),
                        forall|i: int| 0 <= i < k
                            ==> ((ast.stmts@[#[trigger] b.statements@[i] as int]
                                matches Statement::VarDecl(v1)
                                && (v1.initializer matches Some(e2)
                                    && (ast.exprs@[e2 as int] matches Expr::Variable { name: n2 }
                                        && n2.lexeme@ == v1.name.lexeme@)))
                                ==> self.errors@.len() > old(self).errors@.len()),
                    decreases b.statements@.len() - k,
                {
                    let ghost before = *self;
                    self.resolve_stmt(ast, b.statements[k]);
                    proof {
                        assert forall|i: int| 0 <= i < k + 1
                            implies (ast.stmts@[#[trigger] b.statements@[i] as int]
                                matches Statement::VarDecl(v1)
                                ==> scope_lookup(self.scopes@.last()@, v1.name.lexeme@) is Some) by {
                            if i < k {
                                match ast.stmts@[b.statements@[i] as int] {
                                    Statement::VarDecl(v1) => {
                                        assert(scope_lookup(
                                            before.scopes@.last()@,
                                            v1.name.lexeme@,
                                        ) is Some);
                                        assert(scope_lookup(
                                            self.scopes@[before.scopes@.len() - 1]@,
                                            v1.name.lexeme@,
                                        ) is Some);
                                    },
                                    _ => {},
                                }
                            }
                        }
                    }
                    k = k + 1;
                }
                self.end_scope();
            },
            Statement::If(i) => {
                self.resolve_expr(ast, i.condition);
                let ghost mid = *self;
                self.resolve_stmt(ast, i.if_branch);
                let ghost mid2 = *self;
                match i.else_branch {
                    Some(els) => {
                        self.resolve_stmt(ast, els);
                    },
                    None => {},
                }
                proof {
                    if old(self).scopes@.len() > 0 {
                        assert forall|n: Seq<char>|
                            (#[trigger] scope_lookup(old(self).scopes@.last()@, n)) is Some
                            implies scope_lookup(
                                self.scopes@[old(self).scopes@.len() - 1]@,
                                n,
                            ) is Some by {
                            assert(scope_lookup(mid.scopes@.last()@, n) is Some);
                            assert(scope_lookup(
                                mid2.scopes@[mid.scopes@.len() - 1]@,
                                n,
                            ) is Some);
                            assert(scope_lookup(mid2.scopes@.last()@, n) is Some);
                        }
                    }
                }
            },
            Statement::While(w) => {
                self.resolve_expr(ast, w.condition);
                let ghost mid = *self;
                self.resolve_stmt(ast, w.body);
                proof {
                    if old(self).scopes@.len() > 0 {
                        assert forall|n: Seq<char>|
                            (#[trigger] scope_lookup(old(self).scopes@.last()@, n)) is Some
                            implies scope_lookup(
                                self.scopes@[old(self).scopes@.len() - 1]@,
                                n,
                            ) is Some by {
                            assert(scope_lookup(mid.scopes@.last()@, n) is Some);
                        }
                    }
                }
            },
            Statement::Return(r) => {
                if self.current_scope == ScopeType::Normal {
                    self.errors.push(StaticError {
                        kind: StaticErrorKind::ReturnOutsideFunction,
                        token: r.return_token.clone(),
                    });
                }
                match r.value {
                    Some(v) => {
                        if self.current_scope == ScopeType::Initializer {
                            self.errors.push(StaticError {
                                kind: StaticErrorKind::ReturnFromInitializer,
                                token: r.return_token.clone(),
                            });
                        }
                        self.resolve_expr(ast, v);
                    },
                    None => {},
                }
            },
        }
    }

    /// Resolves a whole program: sizes the distance table and resolves the
    /// given top-level statements in order.  Afterwards `has_err` says
    /// whether the program may be executed, `errors` holds every violation
    /// found, and `distances` holds the recorded scope distances.
    pub fn resolve(&mut self, ast: &Ast, roots: &Vec<StmtId>)
        requires
            wf_ast(*ast),
            forall|k: int| 0 <= k < roots@.len()
                ==> (#[trigger] roots@[k] as int) < ast.stmts@.len(),
        ensures
            final(self).distances@.len() == ast.exprs@.len(),
            final(self).current_scope == old(self).current_scope,
            final(self).current_class == old(self).current_class,
            errors_extended(old(self).errors@, final(self).errors@),
            old(self).current_scope == ScopeType::Normal
                ==> ((exists|k: int| 0 <= k < roots@.len()
                    && ast.stmts@[#[trigger] roots@[k] as int] is Return)
                ==> final(self).errors@.len() > old(self).errors@.len()),
    {
        self.prepare(ast);
        let mut k: usize = 0;
        while k < roots.len()
            invariant
                wf_ast(*ast),
                forall|m: int| 0 <= m < roots@.len()
                    ==> (#[trigger] roots@[m] as int) < ast.stmts@.len(),
                self.distances@.len() == ast.exprs@.len(),
                self.current_scope == old(self).current_scope,
                self.current_class == old(self).current_class,
                errors_extended(old(self).errors@, self.errors@),
                old(self).current_scope == ScopeType::Normal ==> forall|m: int| 0 <= m < k
                    ==> (ast.stmts@[#[trigger] roots@[m] as int] is Return
                        ==> self.errors@.len() > old(self).errors@.len()),
            decreases roots@.len() - k,
        {
            self.resolve_stmt(ast, roots[k]);
            k = k + 1;
        }
    }
}

/// Scanning from the innermost scope: once the `k` innermost scopes are
/// known not to declare `name`, the distance is `k` more than the distance
/// within the remaining outer scopes.
proof fn lemma_innermost_unroll(scopes: Seq<Vec<(String, bool)>>, name: Seq<char>, k: int)
    requires
        0 <= k <= scopes.len(),
        forall|m: int| scopes.len() - k <= m < scopes.len()
            ==> scope_lookup((#[trigger] scopes[m])@, name) is None,
    ensures
        innermost_distance(scopes, name) == match innermost_distance(
            scopes.take(scopes.len() - k),
            name,
        ) {
            Some(d) => Some(d + k),
            None => None,
        },
    decreases k,
{
    if k == 0 {
        assert(scopes.take(scopes.len() as int) =~= scopes);
    } else {
        assert(scope_lookup(scopes.last()@, name) is None);
        assert forall|m: int| scopes.drop_last().len() - (k - 1) <= m < scopes.drop_last().len()
            implies scope_lookup((#[trigger] scopes.drop_last()[m])@, name) is None by {
            assert(scopes.drop_last()[m] == scopes[m]);
        }
        lemma_innermost_unroll(scopes.drop_last(), name, k - 1);
        assert(scopes.drop_last().take(scopes.drop_last().len() - (k - 1))
            =~= scopes.take(scopes.len() - k));
    }
}

} // verus!
