//! Runtime core of a dynamically-typed, lexically-scoped scripting language:
//! a static binding resolver followed by a tree-walking evaluator that
//! executes an already-parsed program.
//!
//! The core consists of the token and syntax-tree data model, the resolver
//! (a static pass that computes a scope distance for every variable, `this`
//! and `super` reference and rejects invalid scoping), the chained
//! environment model, and the evaluator with its value, callable, class and
//! instance runtime.  Lexical scanning and parsing sit outside the core: it
//! consumes an already-built, syntactically valid syntax tree.

pub mod ast;
pub mod env;
pub mod interp;
pub mod numbers;
pub mod resolver;
pub mod token;
pub mod value;

pub use ast::Ast;
pub use env::EnvStore;
pub use env::Environment;
pub use interp::TreeWalk;
pub use resolver::Resolver;
pub use token::identifier_type;
pub use token::Token;
pub use token::TokenLiteral;
pub use token::TokenPosition;
pub use token::TokenType;
pub use value::FunctionType;
pub use value::RuntimeError;
pub use value::Value;
