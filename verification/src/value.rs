//! The closed set of runtime value kinds, and the runtime error channel.
//!
//! Functions, classes and instances are reference-identity values: a value
//! carries a handle into the interpreter's arenas, so copying a value copies
//! the reference, never the underlying state.  A number is carried as the
//! bit pattern of an IEEE-754 binary64 value.

use crate::ast::FunId;
use crate::ast::Literal;
use crate::token::Token;
use vstd::prelude::*;

verus! {

/// A function value: the declaration it executes, the environment frame it
/// closed over, and whether it is a class initializer.
#[derive(Debug, Clone, Copy, PartialEq, Eq, Structural)]
pub struct Function {
    pub decl: FunId,
    pub closure: usize,
    pub is_init: bool,
}

/// A native function: a catalog entry with a name and an arity.  The single
/// entry is the clock intrinsic.
#[derive(Debug)]
pub struct NativeFunction {
    pub name: String,
    pub arity: usize,
}

/// A runtime value.  `Class`, `Instance` and `NativeFunction` carry handles
/// into the evaluator's arenas.
#[derive(Debug)]
pub enum Value {
    Number(u64),
    Str(String),
    Bool(bool),
    Nil,
    Function(Function),
    NativeFunction(usize),
    Class(usize),
    Instance(usize),
}

impl Clone for Value {
    fn clone(&self) -> (r: Self)
        ensures
            r == *self,
    {
        match self {
            Value::Number(b) => Value::Number(*b),
            Value::Str(s) => Value::Str(s.clone()),
            Value::Bool(b) => Value::Bool(*b),
            Value::Nil => Value::Nil,
            Value::Function(f) => Value::Function(*f),
            Value::NativeFunction(h) => Value::NativeFunction(*h),
            Value::Class(h) => Value::Class(*h),
            Value::Instance(h) => Value::Instance(*h),
        }
    }
}

impl Value {
    /// The value a literal expression denotes.
    pub fn from_literal(literal: &Literal) -> (v: Value)
        ensures
            match *literal {
                Literal::Number(b) => v == Value::Number(b),
                Literal::Str(s) => v matches Value::Str(s2) && s2@ == s@,
                Literal::Bool(b) => v == Value::Bool(b),
                Literal::Nil => v == Value::Nil,
            },
    {
        match literal {
            Literal::Number(b) => Value::Number(*b),
            Literal::Str(s) => Value::Str(s.clone()),
            Literal::Bool(b) => Value::Bool(*b),
            Literal::Nil => Value::Nil,
        }
    }
}

/// Truthiness: only nil and false are falsy; every other value, including
/// the number zero and the empty string, is truthy.
pub open spec fn is_truthy(v: Value) -> bool {
    match v {
        Value::Bool(b) => b,
        Value::Nil => false,
        _ => true,
    }
}

/// Coerces a value to a boolean by the truthiness rule.
pub fn is_true(value: &Value) -> (r: bool)
    ensures
        r == is_truthy(*value),
{
    match value {
        Value::Bool(b) => *b,
        Value::Nil => false,
        _ => true,
    }
}

/// The kinds of user-written callable, as shown in diagnostics.
#[derive(Debug, Clone, Copy, PartialEq, Eq, Structural)]
pub enum FunctionType {
    Function,
    Method,
}

impl FunctionType {
    /// The word used for this kind of callable in messages.
    pub fn text(&self) -> (r: String)
        ensures
            *self is Function ==> r@ == "function"@,
            *self is Method ==> r@ == "method"@,
    {
        match self {
            FunctionType::Function => "function".to_owned(),
            FunctionType::Method => "method".to_owned(),
        }
    }
}

/// The runtime error channel.  `Return` is not a user-facing error: it is
/// the non-local signal raised by a `return` statement, caught at the
/// nearest function-call boundary.  `StackOverflow` reports that the
/// evaluation-depth budget ran out.
#[derive(Debug)]
pub enum RuntimeError {
    IncompatibleOperandType { operator: Token, message: String },
    UndefinedVariable { token: Token },
    NotValidCallable { token: Token },
    InvalidArgumentCount { token: Token, expected: usize, actual: usize },
    NotAnInstance { token: Token },
    UndefinedProperty { token: Token },
    SuperclassMustBeAClass { token: Token },
    Return(Option<Value>),
    StackOverflow,
}

} // verus!
