//! The tree-walking evaluator: statement and expression execution, the
//! function-call protocol, non-local return, and the class and instance
//! runtime.
//!
//! All shared mutable state lives in arenas owned by the evaluator: the
//! environment frames, the classes and the instance field maps.  A value
//! carries only a handle, so copying a value preserves reference identity.
//! Every evaluation step takes a fuel budget that bounds recursion depth
//! and loop iterations; an exhausted budget is reported as
//! `RuntimeError::StackOverflow`.

use crate::ast::Ast;
use crate::ast::ExprId;
use crate::ast::StmtId;
use crate::env::frame_at_height;
use crate::env::frame_lookup;
use crate::env::frames_wf;
use crate::env::spec_get;
use crate::env::spec_get_at;
use crate::env::spec_owner;
use crate::env::EnvStore;
use crate::numbers::num_text;
use crate::numbers::number_from_int;
use crate::numbers::number_text;
use crate::numbers::now_unix_millis;
use crate::numbers::number_div;
use crate::token::str_eq;
use crate::token::Token;
use crate::token::TokenType;
use vstd::string::StringExecFns;
use crate::value::Function;
use crate::value::NativeFunction;
use crate::value::RuntimeError;
use crate::value::Value;
use vstd::prelude::*;

verus! {

/// A class: its name, the method table, and the optional superclass.
/// Classes are immutable once created; single inheritance is acyclic
/// because a superclass handle is always smaller than the class's own.
#[derive(Debug)]
pub struct ClassData {
    pub name: String,
    pub methods: Vec<(String, Function)>,
    pub superclass: Option<usize>,
}

/// An instance: its class and its mutable field map, written in place by
/// property writes and bound-method bodies.
#[derive(Debug)]
pub struct InstanceData {
    pub class: usize,
    pub fields: Vec<(String, Value)>,
}

/// The evaluator state: the frame arena, the class, instance and native
/// catalogs, the fixed global frame, the current frame, and the lines
/// printed so far.
#[derive(Debug)]
pub struct TreeWalk {
    pub envs: EnvStore,
    pub classes: Vec<ClassData>,
    pub instances: Vec<InstanceData>,
    pub natives: Vec<NativeFunction>,
    pub globals: usize,
    pub environment: usize,
    pub output: Vec<String>,
}

/// The method bound to `name` in one method table: the newest entry wins.
pub open spec fn methods_lookup(s: Seq<(String, Function)>, name: Seq<char>) -> Option<Function>
    decreases s.len(),
{
    if s.len() == 0 {
        None
    } else if s.last().0@ == name {
        Some(s.last().1)
    } else {
        methods_lookup(s.drop_last(), name)
    }
}

/// Every handle held by a value points into its arena.
pub open spec fn value_wf(v: Value, st: TreeWalk, funs_len: int) -> bool {
    match v {
        Value::Function(f) => (f.decl as int) < funs_len
            && (f.closure as int) < st.envs.frames@.len(),
        Value::Class(c) => (c as int) < st.classes@.len(),
        Value::Instance(i) => (i as int) < st.instances@.len(),
        Value::NativeFunction(n) => (n as int) < st.natives@.len(),
        _ => true,
    }
}

/// Every value stored in the frame at handle `h` is well formed.
pub open spec fn frame_values_wf(st: TreeWalk, h: int, funs_len: int) -> bool {
    forall|k: int| 0 <= k < st.envs.frames@[h].values@.len()
        ==> value_wf((#[trigger] st.envs.frames@[h].values@[k]).1, st, funs_len)
}

/// A class's superclass handle is smaller than its own, and its methods
/// point at existing declarations and frames.
pub open spec fn class_wf(st: TreeWalk, c: int, funs_len: int) -> bool {
    &&& match st.classes@[c].superclass {
        Some(s) => (s as int) < c,
        None => true,
    }
    &&& forall|k: int| 0 <= k < st.classes@[c].methods@.len()
        ==> ((#[trigger] st.classes@[c].methods@[k]).1.decl as int) < funs_len
            && (st.classes@[c].methods@[k].1.closure as int) < st.envs.frames@.len()
}

/// An instance's class exists and its field values are well formed.
pub open spec fn instance_wf(st: TreeWalk, i: int, funs_len: int) -> bool {
    &&& (st.instances@[i].class as int) < st.classes@.len()
    &&& forall|k: int| 0 <= k < st.instances@[i].fields@.len()
        ==> value_wf((#[trigger] st.instances@[i].fields@[k]).1, st, funs_len)
}

/// The evaluator state invariant: the frame chain is acyclic, the global
/// frame is frame 0 and has no enclosing frame, the current frame exists,
/// and every stored handle points into its arena.
pub open spec fn state_wf(st: TreeWalk, funs_len: int) -> bool {
    &&& frames_wf(st.envs.frames@)
    &&& st.envs.frames@.len() > 0
    &&& st.globals == 0
    &&& st.envs.frames@[0].enclosing is None
    &&& (st.environment as int) < st.envs.frames@.len()
    &&& forall|h: int| 0 <= h < st.envs.frames@.len() ==> #[trigger] frame_values_wf(st, h, funs_len)
    &&& forall|c: int| 0 <= c < st.classes@.len() ==> #[trigger] class_wf(st, c, funs_len)
    &&& forall|i: int| 0 <= i < st.instances@.len() ==> #[trigger] instance_wf(st, i, funs_len)
}

/// What every evaluation step preserves: the global frame handle, the
/// shape of the frame chain, the identity of every existing class and the
/// class of every existing instance, the native catalog, and everything
/// already printed.  Arenas only grow.
pub open spec fn state_preserved(a: TreeWalk, b: TreeWalk) -> bool {
    &&& b.globals == a.globals
    &&& b.envs.frames@.len() >= a.envs.frames@.len()
    &&& forall|h: int| 0 <= h < a.envs.frames@.len()
        ==> (#[trigger] b.envs.frames@[h]).enclosing == a.envs.frames@[h].enclosing
    &&& b.classes@.len() >= a.classes@.len()
    &&& forall|c: int| 0 <= c < a.classes@.len()
        ==> (#[trigger] b.classes@[c]) == a.classes@[c]
    &&& b.instances@.len() >= a.instances@.len()
    &&& forall|i: int| 0 <= i < a.instances@.len()
        ==> (#[trigger] b.instances@[i]).class == a.instances@[i].class
    &&& b.natives@ == a.natives@
    &&& b.output@.len() >= a.output@.len()
    &&& forall|k: int| 0 <= k < a.output@.len() ==> (#[trigger] b.output@[k]) == a.output@[k]
    &&& forall|h: int, n: Seq<char>| 0 <= h < a.envs.frames@.len()
        && (#[trigger] frame_lookup(a.envs.frames@[h].values@, n)) is Some
        ==> frame_lookup(b.envs.frames@[h].values@, n) is Some
}

/// The bit pattern of the binary64 value 1000.0, for turning milliseconds
/// into seconds.
pub const MILLIS_PER_SECOND_BITS: u64 = 0x408F_4000_0000_0000;

/// The method bound to `name` on class `c`, walking the class's own table
/// first and then the superclass chain.
pub open spec fn method_lookup(st: TreeWalk, c: int, name: Seq<char>) -> Option<Function>
    decreases c,
{
    if !(0 <= c < st.classes@.len()) {
        None
    } else {
        match methods_lookup(st.classes@[c].methods@, name) {
            Some(f) => Some(f),
            None => match st.classes@[c].superclass {
                Some(s) => if (s as int) < c {
                    method_lookup(st, s as int, name)
                } else {
                    None
                },
                None => None,
            },
        }
    }
}

/// Structural equality of two values: numbers by IEEE-754 equality,
/// strings by contents, functions, natives and classes by name, instances
/// by their class's name, and any mismatch of kinds unequal.
pub open spec fn values_equal_spec(st: TreeWalk, ast: Ast, a: Value, b: Value) -> bool {
    match (a, b) {
        (Value::Number(x), Value::Number(y)) => crate::numbers::num_eq(x, y),
        (Value::Str(x), Value::Str(y)) => x@ == y@,
        (Value::Bool(x), Value::Bool(y)) => x == y,
        (Value::Nil, Value::Nil) => true,
        (Value::Function(f), Value::Function(g)) => ast.funs@[f.decl as int].name.lexeme@
            == ast.funs@[g.decl as int].name.lexeme@,
        (Value::NativeFunction(m), Value::NativeFunction(n)) => st.natives@[m as int].name@
            == st.natives@[n as int].name@,
        (Value::Class(x), Value::Class(y)) => st.classes@[x as int].name@
            == st.classes@[y as int].name@,
        (Value::Instance(x), Value::Instance(y)) => st.classes@[st.instances@[x as int].class as int].name@
            == st.classes@[st.instances@[y as int].class as int].name@,
        _ => false,
    }
}

/// What a successful binary operation returns.
pub open spec fn binary_ok(st: TreeWalk, ast: Ast, op: TokenType, l: Value, r: Value, out: Value) -> bool {
    if op == TokenType::Equal {
        out == Value::Bool(values_equal_spec(st, ast, l, r))
    } else if op == TokenType::NotEqual {
        out == Value::Bool(!values_equal_spec(st, ast, l, r))
    } else {
        match (l, r) {
            (Value::Number(x), Value::Number(y)) => {
                if op == TokenType::Plus {
                    out == Value::Number(crate::numbers::num_add(x, y))
                } else if op == TokenType::Minus {
                    out == Value::Number(crate::numbers::num_sub(x, y))
                } else if op == TokenType::Star {
                    out == Value::Number(crate::numbers::num_mul(x, y))
                } else if op == TokenType::Div {
                    out == Value::Number(crate::numbers::num_div(x, y))
                } else if op == TokenType::Greater {
                    out == Value::Bool(crate::numbers::num_lt(y, x))
                } else if op == TokenType::GreaterEq {
                    out == Value::Bool(crate::numbers::num_le(y, x))
                } else if op == TokenType::Less {
                    out == Value::Bool(crate::numbers::num_lt(x, y))
                } else if op == TokenType::LessEq {
                    out == Value::Bool(crate::numbers::num_le(x, y))
                } else {
                    false
                }
            },
            (Value::Str(a), Value::Str(b)) => op == TokenType::Plus
                && (out matches Value::Str(s) && s@ == a@ + b@),
            _ => false,
        }
    }
}

/// The operand pairs on which a binary operator is a type error: anything
/// but two numbers under the arithmetic and ordering operators, except two
/// strings under `+`; equality never errors.
pub open spec fn binary_type_error(op: TokenType, l: Value, r: Value) -> bool {
    &&& crate::ast::is_binary_op(op)
    &&& op != TokenType::Equal
    &&& op != TokenType::NotEqual
    &&& !(l is Number && r is Number)
    &&& !(op == TokenType::Plus && l is Str && r is Str)
}

/// How a value renders: numbers in their shortest round-tripping decimal
/// form, booleans as `true`/`false`, nil as `nil`, strings raw, functions
/// as `<fn name>`, classes by name, and instances as `Name instance`.
pub open spec fn stringify_spec(st: TreeWalk, ast: Ast, v: Value) -> Seq<char> {
    match v {
        Value::Number(b) => num_text(b),
        Value::Str(s) => s@,
        Value::Bool(b) => if b {
            "true"@
        } else {
            "false"@
        },
        Value::Nil => "nil"@,
        Value::Function(f) => "<fn "@ + ast.funs@[f.decl as int].name.lexeme@ + ">"@,
        Value::NativeFunction(_) => "<native fn>"@,
        Value::Class(c) => st.classes@[c as int].name@,
        Value::Instance(i) => st.classes@[st.instances@[i as int].class as int].name@
            + " instance"@,
    }
}

/// The value kinds that may stand in call position.
pub open spec fn is_callable(v: Value) -> bool {
    v is Function || v is NativeFunction || v is Class
}

/// How many arguments a callable demands.
pub open spec fn arity_spec(st: TreeWalk, ast: Ast, v: Value) -> int {
    match v {
        Value::Function(f) => ast.funs@[f.decl as int].params@.len() as int,
        Value::NativeFunction(n) => st.natives@[n as int].arity as int,
        Value::Class(c) => match method_lookup(st, c as int, "init"@) {
            Some(init) => ast.funs@[init.decl as int].params@.len() as int,
            None => 0,
        },
        _ => 0,
    }
}

/// A found method is one of the table's entries.
proof fn lemma_methods_lookup_member(s: Seq<(String, Function)>, name: Seq<char>)
    ensures
        methods_lookup(s, name) matches Some(f)
            ==> exists|k: int| 0 <= k < s.len() && (#[trigger] s[k]).1 == f,
    decreases s.len(),
{
    if s.len() > 0 && !(s.last().0@ == name) {
        lemma_methods_lookup_member(s.drop_last(), name);
        if methods_lookup(s, name) is Some {
            let f = methods_lookup(s, name).unwrap();
            let k = choose|k: int| 0 <= k < s.drop_last().len() && (#[trigger] s.drop_last()[k]).1 == f;
            assert(s[k].1 == f);
        }
    }
}

/// A found field value is one of the list's entries.
proof fn lemma_frame_lookup_member(s: Seq<(String, Value)>, name: Seq<char>)
    ensures
        frame_lookup(s, name) matches Some(v)
            ==> exists|k: int| 0 <= k < s.len() && (#[trigger] s[k]).1 == v,
    decreases s.len(),
{
    if s.len() > 0 && !(s.last().0@ == name) {
        lemma_frame_lookup_member(s.drop_last(), name);
        if frame_lookup(s, name) is Some {
            let v = frame_lookup(s, name).unwrap();
            let k = choose|k: int| 0 <= k < s.drop_last().len() && (#[trigger] s.drop_last()[k]).1 == v;
            assert(s[k].1 == v);
        }
    }
}

/// The method bound to `name` in one table alone.
fn methods_find(table: &Vec<(String, Function)>, name: &str) -> (r: Option<Function>)
    ensures
        r == methods_lookup(table@, name@),
{
    let mut i = table.len();
    proof {
        assert(table@.take(table@.len() as int) =~= table@);
    }
    while i > 0
        invariant
            i <= table@.len(),
            methods_lookup(table@, name@) == methods_lookup(table@.take(i as int), name@),
        decreases i,
    {
        i = i - 1;
        proof {
            assert(table@.take(i + 1).last() == table@[i as int]);
            assert(table@.take(i + 1).drop_last() =~= table@.take(i as int));
        }
        if str_eq(table[i].0.as_str(), name) {
            return Some(table[i].1);
        }
    }
    None
}

/// Growing the arenas keeps a value well formed.
proof fn lemma_value_wf_mono(v: Value, a: TreeWalk, b: TreeWalk, funs_len: int)
    requires
        value_wf(v, a, funs_len),
        b.envs.frames@.len() >= a.envs.frames@.len(),
        b.classes@.len() >= a.classes@.len(),
        b.instances@.len() >= a.instances@.len(),
        b.natives@.len() >= a.natives@.len(),
    ensures
        value_wf(v, b, funs_len),
{
}

/// What a variable or `this` reference denotes: with a recorded distance,
/// the binding that many hops above the current frame; without one, the
/// binding found in the global frame.
pub open spec fn var_lookup(st: TreeWalk, distances: Seq<Option<usize>>, e: int, name: Seq<char>) -> Option<Value> {
    if 0 <= e < distances.len() && distances[e] is Some {
        spec_get_at(st.envs.frames@, st.environment as int, name, distances[e].unwrap() as nat)
    } else {
        spec_get(st.envs.frames@, st.globals as int, name)
    }
}

/// The value a literal expression evaluates to.
pub open spec fn literal_value_rel(lit: crate::ast::Literal, v: Value) -> bool {
    match lit {
        crate::ast::Literal::Number(b) => v == Value::Number(b),
        crate::ast::Literal::Str(s) => v matches Value::Str(s2) && s2@ == s@,
        crate::ast::Literal::Bool(b) => v == Value::Bool(b),
        crate::ast::Literal::Nil => v == Value::Nil,
    }
}

/// A value found by a height-indexed lookup was stored in some frame, so
/// it is well formed.
proof fn lemma_spec_get_at_wf(st: TreeWalk, e: int, name: Seq<char>, h: nat, funs_len: int)
    requires
        state_wf(st, funs_len),
    ensures
        spec_get_at(st.envs.frames@, e, name, h) matches Some(v) ==> value_wf(v, st, funs_len),
    decreases h,
{
    if 0 <= e < st.envs.frames@.len() {
        if h == 0 {
            lemma_frame_lookup_member(st.envs.frames@[e].values@, name);
            if frame_lookup(st.envs.frames@[e].values@, name) is Some {
                assert(frame_values_wf(st, e, funs_len));
                let v = frame_lookup(st.envs.frames@[e].values@, name).unwrap();
                let k = choose|k: int| 0 <= k < st.envs.frames@[e].values@.len()
                    && (#[trigger] st.envs.frames@[e].values@[k]).1 == v;
                assert(value_wf(st.envs.frames@[e].values@[k].1, st, funs_len));
            }
        } else {
            match st.envs.frames@[e].enclosing {
                Some(p) => {
                    lemma_spec_get_at_wf(st, p as int, name, (h - 1) as nat, funs_len);
                },
                None => {},
            }
        }
    }
}

/// A value found by a chain lookup was stored in some frame, so it is
/// well formed.
proof fn lemma_spec_get_wf(st: TreeWalk, e: int, name: Seq<char>, funs_len: int)
    requires
        state_wf(st, funs_len),
    ensures
        spec_get(st.envs.frames@, e, name) matches Some(v) ==> value_wf(v, st, funs_len),
    decreases e,
{
    let frames = st.envs.frames@;
    if 0 <= e < frames.len() {
        if frame_lookup(frames[e].values@, name) is Some {
            lemma_frame_lookup_member(frames[e].values@, name);
            assert(frame_values_wf(st, e, funs_len));
            if frame_lookup(frames[e].values@, name) is Some {
                let v = frame_lookup(frames[e].values@, name).unwrap();
                let k = choose|k: int| 0 <= k < frames[e].values@.len()
                    && (#[trigger] frames[e].values@[k]).1 == v;
                assert(value_wf(frames[e].values@[k].1, st, funs_len));
            }
        } else {
            match frames[e].enclosing {
                Some(p) => {
                    if (p as int) < e {
                        lemma_spec_get_wf(st, p as int, name, funs_len);
                    }
                },
                None => {},
            }
        }
    }
}

/// A chain lookup only reads the frames at or below its starting handle,
/// so appending frames leaves it unchanged.
proof fn lemma_spec_get_append(frames1: Seq<crate::env::Environment>, frames2: Seq<crate::env::Environment>, e: int, name: Seq<char>)
    requires
        frames_wf(frames1),
        0 <= e < frames1.len(),
        frames1.len() <= frames2.len(),
        forall|k: int| 0 <= k < frames1.len() ==> (#[trigger] frames2[k]) == frames1[k],
    ensures
        spec_get(frames2, e, name) == spec_get(frames1, e, name),
    decreases e,
{
    assert(frames2[e] == frames1[e]);
    if frame_lookup(frames1[e].values@, name) is None {
        match frames1[e].enclosing {
            Some(p) => {
                if (p as int) < e {
                    lemma_spec_get_append(frames1, frames2, p as int, name);
                }
            },
            None => {},
        }
    }
}

/// A height-indexed frame walk only reads enclosing links, which every
/// evaluation step preserves.
proof fn lemma_frame_at_height_preserved(
    f1: Seq<crate::env::Environment>,
    f2: Seq<crate::env::Environment>,
    e: int,
    ht: nat,
)
    requires
        frames_wf(f1),
        0 <= e < f1.len(),
        f1.len() <= f2.len(),
        forall|k: int| 0 <= k < f1.len() ==> (#[trigger] f2[k]).enclosing == f1[k].enclosing,
    ensures
        frame_at_height(f2, e, ht) == frame_at_height(f1, e, ht),
        frame_at_height(f1, e, ht) matches Some(t) ==> 0 <= t < f1.len(),
    decreases ht,
{
    if ht > 0 {
        match f1[e].enclosing {
            Some(pp) => {
                lemma_frame_at_height_preserved(f1, f2, pp as int, (ht - 1) as nat);
            },
            None => {},
        }
    }
}

/// Preservation chains across intermediate states.
proof fn lemma_preserved_trans(a: TreeWalk, b: TreeWalk, c: TreeWalk)
    requires
        state_preserved(a, b),
        state_preserved(b, c),
    ensures
        state_preserved(a, c),
{
    assert forall|h: int| 0 <= h < a.envs.frames@.len()
        implies (#[trigger] c.envs.frames@[h]).enclosing == a.envs.frames@[h].enclosing by {
        assert(b.envs.frames@[h].enclosing == a.envs.frames@[h].enclosing);
    }
    assert forall|x: int| 0 <= x < a.classes@.len()
        implies (#[trigger] c.classes@[x]) == a.classes@[x] by {
        assert(b.classes@[x] == a.classes@[x]);
    }
    assert forall|i: int| 0 <= i < a.instances@.len()
        implies (#[trigger] c.instances@[i]).class == a.instances@[i].class by {
        assert(b.instances@[i].class == a.instances@[i].class);
    }
    assert forall|k: int| 0 <= k < a.output@.len()
        implies (#[trigger] c.output@[k]) == a.output@[k] by {
        assert(b.output@[k] == a.output@[k]);
    }
}

/// A value stays well formed across any preserving step.
proof fn lemma_value_wf_preserved(v: Value, a: TreeWalk, b: TreeWalk, funs_len: int)
    requires
        value_wf(v, a, funs_len),
        state_preserved(a, b),
    ensures
        value_wf(v, b, funs_len),
{
    lemma_value_wf_mono(v, a, b, funs_len);
}

/// Moving the current-frame pointer to another existing frame keeps the
/// state well formed.
proof fn lemma_state_wf_env_change(a: TreeWalk, b: TreeWalk, fl: int)
    requires
        state_wf(a, fl),
        b.envs == a.envs,
        b.classes == a.classes,
        b.instances == a.instances,
        b.natives == a.natives,
        b.globals == a.globals,
        b.output == a.output,
        (b.environment as int) < b.envs.frames@.len(),
    ensures
        state_wf(b, fl),
        state_preserved(a, b),
{
    assert forall|h: int| 0 <= h < b.envs.frames@.len()
        implies #[trigger] frame_values_wf(b, h, fl) by {
        assert(frame_values_wf(a, h, fl));
        assert forall|k: int| 0 <= k < b.envs.frames@[h].values@.len()
            implies value_wf((#[trigger] b.envs.frames@[h].values@[k]).1, b, fl) by {
            assert(value_wf(a.envs.frames@[h].values@[k].1, a, fl));
        }
    }
    assert forall|c: int| 0 <= c < b.classes@.len() implies #[trigger] class_wf(b, c, fl) by {
        assert(class_wf(a, c, fl));
    }
    assert forall|i: int| 0 <= i < b.instances@.len() implies #[trigger] instance_wf(b, i, fl) by {
        assert(instance_wf(a, i, fl));
    }
}

/// Method lookup only reads the classes at or below its starting handle,
/// so growing the class arena leaves it unchanged.
proof fn lemma_method_lookup_grow(a: TreeWalk, b: TreeWalk, c: int, name: Seq<char>, fl: int)
    requires
        state_wf(a, fl),
        0 <= c < a.classes@.len(),
        a.classes@.len() <= b.classes@.len(),
        forall|i: int| 0 <= i < a.classes@.len() ==> (#[trigger] b.classes@[i]) == a.classes@[i],
    ensures
        method_lookup(b, c, name) == method_lookup(a, c, name),
    decreases c,
{
    assert(class_wf(a, c, fl));
    assert(b.classes@[c] == a.classes@[c]);
    if methods_lookup(a.classes@[c].methods@, name) is None {
        match a.classes@[c].superclass {
            Some(sp) => {
                lemma_method_lookup_grow(a, b, sp as int, name, fl);
            },
            None => {},
        }
    }
}

/// The arity of a callable does not change while evaluating its
/// arguments: preservation keeps every existing class and the native
/// catalog as they were.
proof fn lemma_arity_preserved(a: TreeWalk, b: TreeWalk, ast: Ast, v: Value, fl: int)
    requires
        state_wf(a, fl),
        value_wf(v, a, fl),
        state_preserved(a, b),
    ensures
        arity_spec(b, ast, v) == arity_spec(a, ast, v),
{
    match v {
        Value::Class(c) => {
            lemma_method_lookup_grow(a, b, c as int, "init"@, fl);
        },
        _ => {},
    }
}

/// What a completed class declaration leaves behind, relative to the state
/// at entry: the class is created at the next class handle and assigned
/// over the predeclared name in the entry frame; its methods come from the
/// declaration in order, the one literally named `init` marked as the
/// initializer; without a superclass clause the methods close over the
/// entry frame itself, with one they close over a fresh wrapper frame that
/// defines `super` as the superclass and encloses the entry frame.
pub open spec fn class_decl_ok(
    pre: TreeWalk,
    post: TreeWalk,
    ast: Ast,
    distances: Seq<Option<usize>>,
    c: crate::ast::ClassDecl,
) -> bool {
    let h = pre.classes@.len() as int;
    &&& post.classes@.len() == pre.classes@.len() + 1
    &&& frame_lookup(post.envs.frames@[pre.environment as int].values@, c.name.lexeme@)
        == Some(Value::Class(pre.classes@.len() as usize))
    &&& post.classes@[h].name@ == c.name.lexeme@
    &&& post.classes@[h].methods@.len() == c.methods@.len()
    &&& forall|m: int| 0 <= m < c.methods@.len()
        ==> (#[trigger] post.classes@[h].methods@[m]).1.decl == c.methods@[m]
            && post.classes@[h].methods@[m].0@ == ast.funs@[c.methods@[m] as int].name.lexeme@
            && post.classes@[h].methods@[m].1.is_init
                == (ast.funs@[c.methods@[m] as int].name.lexeme@ == "init"@)
    &&& match c.superclass {
        None => post.classes@[h].superclass is None
            && forall|m: int| 0 <= m < c.methods@.len()
                ==> (#[trigger] post.classes@[h].methods@[m]).1.closure == pre.environment,
        Some(sup) => {
            let w = pre.envs.frames@.len() as int;
            &&& forall|m: int| 0 <= m < c.methods@.len()
                ==> (#[trigger] post.classes@[h].methods@[m]).1.closure
                    == pre.envs.frames@.len() as usize
            &&& post.envs.frames@.len() > w
            &&& post.envs.frames@[w].enclosing == Some(pre.environment)
            &&& (ast.exprs@[sup as int] matches crate::ast::Expr::Variable { name: sn }
                ==> (var_lookup(pre, distances, sup as int, sn.lexeme@) matches Some(
                    Value::Class(sc),
                ) ==> post.classes@[h].superclass == Some(sc)
                    && frame_lookup(post.envs.frames@[w].values@, "super"@)
                        == Some(Value::Class(sc))))
        },
    }
}

/// How many of the given statements are print statements.
pub open spec fn print_count(ast: Ast, stmts: Seq<StmtId>) -> int
    decreases stmts.len(),
{
    if stmts.len() == 0 {
        0
    } else {
        print_count(ast, stmts.drop_last()) + if ast.stmts@[stmts.last() as int] is Print {
            1int
        } else {
            0int
        }
    }
}

/// Static superclass dispatch: looking a method up starting at the
/// ancestor yields the ancestor's own implementation whenever the ancestor
/// defines it — whatever the subclass's own table holds, so even when the
/// subclass overrides the method.
pub proof fn lemma_super_dispatch(st: TreeWalk, sub: int, sc: int, name: Seq<char>)
    requires
        0 <= sc < st.classes@.len(),
        st.classes@[sub].superclass == Some(sc as usize),
        methods_lookup(st.classes@[sc].methods@, name) is Some,
    ensures
        method_lookup(st, sc, name) == methods_lookup(st.classes@[sc].methods@, name),
{
}

impl TreeWalk {
    /// A fresh evaluator: one global frame, holding the single native
    /// function of the catalog, the clock intrinsic.
    pub fn new() -> (t: TreeWalk)
        ensures
            forall|funs_len: int| #[trigger] state_wf(t, funs_len),
            t.environment == 0,
            t.globals == 0,
            t.envs.frames@.len() == 1,
            t.classes@.len() == 0,
            t.instances@.len() == 0,
            t.output@.len() == 0,
            t.natives@.len() == 1,
            t.natives@[0].name@ == "clock"@,
            t.natives@[0].arity == 0,
            spec_get(t.envs.frames@, 0, "clock"@) == Some(Value::NativeFunction(0usize)),
            forall|o: Seq<char>| o != "clock"@
                ==> frame_lookup(t.envs.frames@[0].values@, o) is None,
    {
        let mut envs = EnvStore::new();
        let g = envs.new_frame();
        let mut natives: Vec<NativeFunction> = Vec::new();
        natives.push(NativeFunction { name: "clock".to_owned(), arity: 0 });
        let mut t = TreeWalk {
            envs,
            classes: Vec::new(),
            instances: Vec::new(),
            natives,
            globals: g,
            environment: g,
            output: Vec::new(),
        };
        t.envs.define(g, "clock", Value::NativeFunction(0));
        proof {
            assert forall|funs_len: int| #[trigger] state_wf(t, funs_len) by {
                assert forall|h: int| 0 <= h < t.envs.frames@.len()
                    implies #[trigger] frame_values_wf(t, h, funs_len) by {
                    assert forall|k: int| 0 <= k < t.envs.frames@[h].values@.len()
                        implies value_wf((#[trigger] t.envs.frames@[h].values@[k]).1, t, funs_len) by {
                        assert(t.envs.frames@[h].values@.len() == 1);
                        assert(t.envs.frames@[h].values@[k].1 == Value::NativeFunction(0usize));
                    }
                }
            }
        }
        t
    }

    /// Binds `name` to `value` in the frame `env`.
    fn def_in(&mut self, env: usize, name: &str, value: Value, Ghost(funs_len): Ghost<int>)
        requires
            state_wf(*old(self), funs_len),
            env < old(self).envs.frames@.len(),
            value_wf(value, *old(self), funs_len),
        ensures
            state_wf(*final(self), funs_len),
            state_preserved(*old(self), *final(self)),
            final(self).environment == old(self).environment,
            final(self).envs.frames@.len() == old(self).envs.frames@.len(),
            forall|k: int| 0 <= k < old(self).envs.frames@.len() && k != env
                ==> final(self).envs.frames@[k] == old(self).envs.frames@[k],
            frame_lookup(final(self).envs.frames@[env as int].values@, name@) == Some(value),
            forall|o: Seq<char>| o != name@
                ==> frame_lookup(final(self).envs.frames@[env as int].values@, o)
                    == frame_lookup(old(self).envs.frames@[env as int].values@, o),
            final(self).classes == old(self).classes,
            final(self).instances == old(self).instances,
            final(self).output == old(self).output,
    {
        self.envs.define(env, name, value);
        proof {
            let a = *old(self);
            let b = *self;
            assert forall|h: int| 0 <= h < b.envs.frames@.len()
                implies #[trigger] frame_values_wf(b, h, funs_len) by {
                assert(frame_values_wf(a, h, funs_len));
                assert forall|k: int| 0 <= k < b.envs.frames@[h].values@.len()
                    implies value_wf((#[trigger] b.envs.frames@[h].values@[k]).1, b, funs_len) by {
                    if h == env && k == a.envs.frames@[h].values@.len() {
                        assert(b.envs.frames@[h].values@[k].1 == value);
                    } else {
                        assert(b.envs.frames@[h].values@[k] == a.envs.frames@[h].values@[k]);
                        assert(value_wf(a.envs.frames@[h].values@[k].1, a, funs_len));
                    }
                }
            }
            assert forall|c: int| 0 <= c < b.classes@.len() implies #[trigger] class_wf(b, c, funs_len) by {
                assert(class_wf(a, c, funs_len));
            }
            assert forall|i: int| 0 <= i < b.instances@.len()
                implies #[trigger] instance_wf(b, i, funs_len) by {
                assert(instance_wf(a, i, funs_len));
            }
        }
    }

    /// Allocates a fresh frame enclosed by `enclosing`; returns its handle.
    fn fresh_frame(&mut self, enclosing: usize, Ghost(funs_len): Ghost<int>) -> (h: usize)
        requires
            state_wf(*old(self), funs_len),
            enclosing < old(self).envs.frames@.len(),
        ensures
            state_wf(*final(self), funs_len),
            state_preserved(*old(self), *final(self)),
            final(self).environment == old(self).environment,
            h == old(self).envs.frames@.len(),
            final(self).envs.frames@.len() == old(self).envs.frames@.len() + 1,
            forall|k: int| 0 <= k < old(self).envs.frames@.len()
                ==> final(self).envs.frames@[k] == old(self).envs.frames@[k],
            final(self).envs.frames@[h as int].values@.len() == 0,
            final(self).envs.frames@[h as int].enclosing == Some(enclosing),
            final(self).classes == old(self).classes,
            final(self).instances == old(self).instances,
            final(self).output == old(self).output,
    {
        let h = self.envs.new_frame_with_enclosing(enclosing);
        proof {
            let a = *old(self);
            let b = *self;
            assert forall|hh: int| 0 <= hh < b.envs.frames@.len()
                implies #[trigger] frame_values_wf(b, hh, funs_len) by {
                if hh < a.envs.frames@.len() {
                    assert(frame_values_wf(a, hh, funs_len));
                    assert forall|k: int| 0 <= k < b.envs.frames@[hh].values@.len()
                        implies value_wf((#[trigger] b.envs.frames@[hh].values@[k]).1, b, funs_len) by {
                        assert(value_wf(a.envs.frames@[hh].values@[k].1, a, funs_len));
                    }
                } else {
                    assert(b.envs.frames@[hh].values@.len() == 0);
                }
            }
            assert forall|c: int| 0 <= c < b.classes@.len() implies #[trigger] class_wf(b, c, funs_len) by {
                assert(class_wf(a, c, funs_len));
            }
            assert forall|i: int| 0 <= i < b.instances@.len()
                implies #[trigger] instance_wf(b, i, funs_len) by {
                assert(instance_wf(a, i, funs_len));
            }
        }
        h
    }

    /// Appends a freshly built class to the class arena; returns its handle.
    fn push_class(&mut self, data: ClassData, Ghost(funs_len): Ghost<int>) -> (h: usize)
        requires
            state_wf(*old(self), funs_len),
            match data.superclass {
                Some(s) => (s as int) < old(self).classes@.len(),
                None => true,
            },
            forall|k: int| 0 <= k < data.methods@.len()
                ==> ((#[trigger] data.methods@[k]).1.decl as int) < funs_len
                    && (data.methods@[k].1.closure as int) < old(self).envs.frames@.len(),
        ensures
            state_wf(*final(self), funs_len),
            state_preserved(*old(self), *final(self)),
            final(self).environment == old(self).environment,
            h == old(self).classes@.len(),
            final(self).classes@ == old(self).classes@.push(data),
            final(self).envs == old(self).envs,
            final(self).instances == old(self).instances,
            final(self).output == old(self).output,
    {
        let h = self.classes.len();
        self.classes.push(data);
        proof {
            let a = *old(self);
            let b = *self;
            assert forall|hh: int| 0 <= hh < b.envs.frames@.len()
                implies #[trigger] frame_values_wf(b, hh, funs_len) by {
                assert(frame_values_wf(a, hh, funs_len));
                assert forall|k: int| 0 <= k < b.envs.frames@[hh].values@.len()
                    implies value_wf((#[trigger] b.envs.frames@[hh].values@[k]).1, b, funs_len) by {
                    assert(value_wf(a.envs.frames@[hh].values@[k].1, a, funs_len));
                }
            }
            assert forall|c: int| 0 <= c < b.classes@.len() implies #[trigger] class_wf(b, c, funs_len) by {
                if c < a.classes@.len() {
                    assert(class_wf(a, c, funs_len));
                }
            }
            assert forall|i: int| 0 <= i < b.instances@.len()
                implies #[trigger] instance_wf(b, i, funs_len) by {
                assert(instance_wf(a, i, funs_len));
            }
        }
        h
    }

    /// Creates a fresh instance of `class` with no fields yet; returns its
    /// handle.
    fn push_instance(&mut self, class: usize, Ghost(funs_len): Ghost<int>) -> (h: usize)
        requires
            state_wf(*old(self), funs_len),
            class < old(self).classes@.len(),
        ensures
            state_wf(*final(self), funs_len),
            state_preserved(*old(self), *final(self)),
            final(self).environment == old(self).environment,
            h == old(self).instances@.len(),
            final(self).instances@.len() == old(self).instances@.len() + 1,
            forall|k: int| 0 <= k < old(self).instances@.len()
                ==> final(self).instances@[k] == old(self).instances@[k],
            final(self).instances@[h as int].class == class,
            final(self).instances@[h as int].fields@.len() == 0,
            final(self).envs == old(self).envs,
            final(self).classes == old(self).classes,
            final(self).output == old(self).output,
    {
        let h = self.instances.len();
        self.instances.push(InstanceData { class, fields: Vec::new() });
        proof {
            let a = *old(self);
            let b = *self;
            assert forall|hh: int| 0 <= hh < b.envs.frames@.len()
                implies #[trigger] frame_values_wf(b, hh, funs_len) by {
                assert(frame_values_wf(a, hh, funs_len));
                assert forall|k: int| 0 <= k < b.envs.frames@[hh].values@.len()
                    implies value_wf((#[trigger] b.envs.frames@[hh].values@[k]).1, b, funs_len) by {
                    assert(value_wf(a.envs.frames@[hh].values@[k].1, a, funs_len));
                }
            }
            assert forall|c: int| 0 <= c < b.classes@.len() implies #[trigger] class_wf(b, c, funs_len) by {
                assert(class_wf(a, c, funs_len));
            }
            assert forall|i: int| 0 <= i < b.instances@.len()
                implies #[trigger] instance_wf(b, i, funs_len) by {
                if i < a.instances@.len() {
                    assert(instance_wf(a, i, funs_len));
                }
            }
        }
        h
    }

    /// Writes the field `name` of instance `i`, creating it if absent:
    /// there is no field schema.
    pub fn instance_set(&mut self, ast: &Ast, i: usize, name: &Token, value: Value)
        requires
            state_wf(*old(self), ast.funs@.len() as int),
            i < old(self).instances@.len(),
            value_wf(value, *old(self), ast.funs@.len() as int),
        ensures
            state_wf(*final(self), ast.funs@.len() as int),
            state_preserved(*old(self), *final(self)),
            final(self).environment == old(self).environment,
            final(self).instances@.len() == old(self).instances@.len(),
            forall|k: int| 0 <= k < old(self).instances@.len() && k != i
                ==> final(self).instances@[k] == old(self).instances@[k],
            final(self).instances@[i as int].class == old(self).instances@[i as int].class,
            frame_lookup(final(self).instances@[i as int].fields@, name.lexeme@) == Some(value),
            forall|o: Seq<char>| o != name.lexeme@
                ==> frame_lookup(final(self).instances@[i as int].fields@, o)
                    == frame_lookup(old(self).instances@[i as int].fields@, o),
            final(self).envs == old(self).envs,
            final(self).classes == old(self).classes,
            final(self).output == old(self).output,
    {
        let ghost funs_len = ast.funs@.len() as int;
        let ghost prev = self.instances@;
        let key = name.lexeme.clone();
        self.instances[i].fields.push((key, value));
        proof {
            let a = *old(self);
            let b = *self;
            assert(b.instances@ =~= prev.update(i as int, b.instances@[i as int]));
            assert(b.instances@[i as int].fields@
                =~= a.instances@[i as int].fields@.push(b.instances@[i as int].fields@.last()));
            crate::env::lemma_frame_lookup_push(
                a.instances@[i as int].fields@,
                b.instances@[i as int].fields@.last(),
                name.lexeme@,
            );
            assert forall|o: Seq<char>| o != name.lexeme@
                implies frame_lookup(b.instances@[i as int].fields@, o)
                    == frame_lookup(a.instances@[i as int].fields@, o) by {
                crate::env::lemma_frame_lookup_push(
                    a.instances@[i as int].fields@,
                    b.instances@[i as int].fields@.last(),
                    o,
                );
            }
            assert forall|hh: int| 0 <= hh < b.envs.frames@.len()
                implies #[trigger] frame_values_wf(b, hh, funs_len) by {
                assert(frame_values_wf(a, hh, funs_len));
                assert forall|k: int| 0 <= k < b.envs.frames@[hh].values@.len()
                    implies value_wf((#[trigger] b.envs.frames@[hh].values@[k]).1, b, funs_len) by {
                    assert(value_wf(a.envs.frames@[hh].values@[k].1, a, funs_len));
                }
            }
            assert forall|c: int| 0 <= c < b.classes@.len() implies #[trigger] class_wf(b, c, funs_len) by {
                assert(class_wf(a, c, funs_len));
            }
            assert forall|ii: int| 0 <= ii < b.instances@.len()
                implies #[trigger] instance_wf(b, ii, funs_len) by {
                assert(instance_wf(a, ii, funs_len));
                if ii == i {
                    assert forall|k: int| 0 <= k < b.instances@[ii].fields@.len()
                        implies value_wf((#[trigger] b.instances@[ii].fields@[k]).1, b, funs_len) by {
                        if k == a.instances@[ii].fields@.len() {
                            assert(b.instances@[ii].fields@[k].1 == value);
                        } else {
                            assert(b.instances@[ii].fields@[k] == a.instances@[ii].fields@[k]);
                            assert(value_wf(a.instances@[ii].fields@[k].1, a, funs_len));
                        }
                    }
                }
            }
        }
    }

    /// The method bound to `name` on the class `class`, walking the method
    /// table first and then the superclass chain; never cached.
    pub fn find_method(&self, ast: &Ast, class: usize, name: &str) -> (r: Option<Function>)
        requires
            state_wf(*self, ast.funs@.len() as int),
            class < self.classes@.len(),
        ensures
            r == method_lookup(*self, class as int, name@),
            r matches Some(f) ==> (f.decl as int) < ast.funs@.len()
                && (f.closure as int) < self.envs.frames@.len(),
    {
        let mut cur = class;
        loop
            invariant
                state_wf(*self, ast.funs@.len() as int),
                cur < self.classes@.len(),
                method_lookup(*self, class as int, name@) == method_lookup(*self, cur as int, name@),
            decreases cur,
        {
            let found = methods_find(&self.classes[cur].methods, name);
            match found {
                Some(f) => {
                    proof {
                        lemma_methods_lookup_member(self.classes@[cur as int].methods@, name@);
                        assert(class_wf(*self, cur as int, ast.funs@.len() as int));
                    }
                    return Some(f);
                },
                None => {
                    match self.classes[cur].superclass {
                        Some(s) => {
                            proof {
                                assert(class_wf(*self, cur as int, ast.funs@.len() as int));
                            }
                            cur = s;
                        },
                        None => {
                            return None;
                        },
                    }
                },
            }
        }
    }

    /// Structural equality of two values, across any pair of kinds: a type
    /// mismatch compares unequal, never errors.  Numbers compare by IEEE-754
    /// equality; functions, classes and native functions by name; instances
    /// by their class's name.
    pub fn values_equal(&self, ast: &Ast, a: &Value, b: &Value) -> (r: bool)
        requires
            state_wf(*self, ast.funs@.len() as int),
            value_wf(*a, *self, ast.funs@.len() as int),
            value_wf(*b, *self, ast.funs@.len() as int),
        ensures
            r == values_equal_spec(*self, *ast, *a, *b),
    {
        match (a, b) {
            (Value::Number(x), Value::Number(y)) => crate::numbers::number_eq(*x, *y),
            (Value::Str(x), Value::Str(y)) => str_eq(x.as_str(), y.as_str()),
            (Value::Bool(x), Value::Bool(y)) => *x == *y,
            (Value::Nil, Value::Nil) => true,
            (Value::Function(f), Value::Function(g)) => str_eq(
                ast.funs[f.decl].name.lexeme.as_str(),
                ast.funs[g.decl].name.lexeme.as_str(),
            ),
            (Value::NativeFunction(m), Value::NativeFunction(n)) => str_eq(
                self.natives[*m].name.as_str(),
                self.natives[*n].name.as_str(),
            ),
            (Value::Class(x), Value::Class(y)) => str_eq(
                self.classes[*x].name.as_str(),
                self.classes[*y].name.as_str(),
            ),
            (Value::Instance(x), Value::Instance(y)) => {
                proof {
                    assert(instance_wf(*self, *x as int, ast.funs@.len() as int));
                    assert(instance_wf(*self, *y as int, ast.funs@.len() as int));
                }
                let cx = self.instances[*x].class;
                let cy = self.instances[*y].class;
                str_eq(self.classes[cx].name.as_str(), self.classes[cy].name.as_str())
            },
            _ => false,
        }
    }

    /// Applies a binary operator to two already-evaluated operands.
    /// Arithmetic and ordering demand two numbers — except `+`, which also
    /// concatenates two strings — and any other operand pair is an
    /// `IncompatibleOperandType` error; equality compares any pair of
    /// values and never errors.
    pub fn apply_binary(&self, ast: &Ast, operator: &Token, l: Value, r: Value) -> (res: Result<
        Value,
        RuntimeError,
    >)
        requires
            crate::ast::is_binary_op(operator.token_type),
            state_wf(*self, ast.funs@.len() as int),
            value_wf(l, *self, ast.funs@.len() as int),
            value_wf(r, *self, ast.funs@.len() as int),
        ensures
            match res {
                Ok(out) => binary_ok(*self, *ast, operator.token_type, l, r, out)
                    && value_wf(out, *self, ast.funs@.len() as int)
                    && !binary_type_error(operator.token_type, l, r),
                Err(e) => binary_type_error(operator.token_type, l, r)
                    && (e matches RuntimeError::IncompatibleOperandType { operator: o, message }
                        && o == *operator && message@ == "Operands must be numbers"@),
            },
    {
        let op = operator.token_type;
        if op == TokenType::Equal {
            let eq = self.values_equal(ast, &l, &r);
            return Ok(Value::Bool(eq));
        }
        if op == TokenType::NotEqual {
            let eq = self.values_equal(ast, &l, &r);
            return Ok(Value::Bool(!eq));
        }
        match (l, r) {
            (Value::Number(x), Value::Number(y)) => {
                if op == TokenType::Plus {
                    Ok(Value::Number(crate::numbers::number_add(x, y)))
                } else if op == TokenType::Minus {
                    Ok(Value::Number(crate::numbers::number_sub(x, y)))
                } else if op == TokenType::Star {
                    Ok(Value::Number(crate::numbers::number_mul(x, y)))
                } else if op == TokenType::Div {
                    Ok(Value::Number(number_div(x, y)))
                } else if op == TokenType::Greater {
                    Ok(Value::Bool(crate::numbers::number_lt(y, x)))
                } else if op == TokenType::GreaterEq {
                    Ok(Value::Bool(crate::numbers::number_le(y, x)))
                } else if op == TokenType::Less {
                    Ok(Value::Bool(crate::numbers::number_lt(x, y)))
                } else {
                    Ok(Value::Bool(crate::numbers::number_le(x, y)))
                }
            },
            (Value::Str(a), Value::Str(b)) => {
                if op == TokenType::Plus {
                    let joined = a.concat(b.as_str());
                    Ok(Value::Str(joined))
                } else {
                    Err(RuntimeError::IncompatibleOperandType {
                        operator: operator.clone(),
                        message: "Operands must be numbers".to_owned(),
                    })
                }
            },
            _ => Err(RuntimeError::IncompatibleOperandType {
                operator: operator.clone(),
                message: "Operands must be numbers".to_owned(),
            }),
        }
    }

    /// Applies a unary operator to an already-evaluated operand: `-`
    /// demands a number, `!` coerces any value by the truthiness rule.
    pub fn apply_unary(&self, operator: &Token, v: Value) -> (res: Result<Value, RuntimeError>)
        requires
            crate::ast::is_unary_op(operator.token_type),
        ensures
            match res {
                Ok(out) => {
                    &&& operator.token_type == TokenType::Minus
                        ==> (v matches Value::Number(x) && out == Value::Number(
                            crate::numbers::num_neg(x),
                        ))
                    &&& operator.token_type == TokenType::Not
                        ==> out == Value::Bool(!crate::value::is_truthy(v))
                    &&& out is Number || out is Bool
                },
                Err(e) => operator.token_type == TokenType::Minus && !(v is Number)
                    && (e matches RuntimeError::IncompatibleOperandType { operator: o, message }
                        && o == *operator && message@ == "Operand must be a number"@),
            },
    {
        if operator.token_type == TokenType::Minus {
            match v {
                Value::Number(x) => Ok(Value::Number(crate::numbers::number_neg(x))),
                _ => Err(RuntimeError::IncompatibleOperandType {
                    operator: operator.clone(),
                    message: "Operand must be a number".to_owned(),
                }),
            }
        } else {
            let t = crate::value::is_true(&v);
            Ok(Value::Bool(!t))
        }
    }

    /// Renders a value as the print statement and the REPL show it.
    pub fn stringify(&self, ast: &Ast, v: &Value) -> (r: String)
        requires
            state_wf(*self, ast.funs@.len() as int),
            value_wf(*v, *self, ast.funs@.len() as int),
        ensures
            r@ == stringify_spec(*self, *ast, *v),
    {
        match v {
            Value::Number(b) => number_text(*b),
            Value::Str(s) => s.clone(),
            Value::Bool(b) => {
                if *b {
                    "true".to_owned()
                } else {
                    "false".to_owned()
                }
            },
            Value::Nil => "nil".to_owned(),
            Value::Function(f) => {
                let mut s = "<fn ".to_owned();
                s.append(ast.funs[f.decl].name.lexeme.as_str());
                s.append(">");
                s
            },
            Value::NativeFunction(_) => "<native fn>".to_owned(),
            Value::Class(c) => self.classes[*c].name.clone(),
            Value::Instance(i) => {
                proof {
                    assert(instance_wf(*self, *i as int, ast.funs@.len() as int));
                }
                let mut s = self.classes[self.instances[*i].class].name.clone();
                s.append(" instance");
                s
            },
        }
    }

    /// The number of arguments a callable demands: a function's parameter
    /// count, a native's declared arity, and for a class the arity of its
    /// `init` method anywhere in the ancestor chain, or zero without one.
    pub fn arity(&self, ast: &Ast, v: &Value) -> (n: usize)
        requires
            state_wf(*self, ast.funs@.len() as int),
            value_wf(*v, *self, ast.funs@.len() as int),
            is_callable(*v),
        ensures
            n as int == arity_spec(*self, *ast, *v),
    {
        match v {
            Value::Function(f) => ast.funs[f.decl].params.len(),
            Value::NativeFunction(h) => self.natives[*h].arity,
            Value::Class(c) => {
                match self.find_method(ast, *c, "init") {
                    Some(init) => ast.funs[init.decl].params.len(),
                    None => 0,
                }
            },
            _ => {
                proof {
                    assert(false);
                }
                0
            },
        }
    }

    /// Produces a bound method: a fresh function value over a fresh frame
    /// that defines `this` as the given instance and encloses the method's
    /// original closure.
    pub fn bind(&mut self, ast: &Ast, method: Function, instance: usize) -> (b: Function)
        requires
            state_wf(*old(self), ast.funs@.len() as int),
            (method.decl as int) < ast.funs@.len(),
            method.closure < old(self).envs.frames@.len(),
            instance < old(self).instances@.len(),
        ensures
            state_wf(*final(self), ast.funs@.len() as int),
            state_preserved(*old(self), *final(self)),
            final(self).environment == old(self).environment,
            b.decl == method.decl,
            b.is_init == method.is_init,
            b.closure == old(self).envs.frames@.len(),
            final(self).envs.frames@.len() == old(self).envs.frames@.len() + 1,
            forall|k: int| 0 <= k < old(self).envs.frames@.len()
                ==> final(self).envs.frames@[k] == old(self).envs.frames@[k],
            final(self).envs.frames@[b.closure as int].enclosing == Some(method.closure),
            frame_lookup(final(self).envs.frames@[b.closure as int].values@, "this"@)
                == Some(Value::Instance(instance)),
            forall|o: Seq<char>| o != "this"@
                ==> frame_lookup(final(self).envs.frames@[b.closure as int].values@, o) is None,
            final(self).classes == old(self).classes,
            final(self).instances == old(self).instances,
            final(self).output == old(self).output,
    {
        let ghost funs_len = ast.funs@.len() as int;
        let h = self.fresh_frame(method.closure, Ghost(funs_len));
        proof {
            assert forall|o: Seq<char>| o != "this"@
                implies frame_lookup(self.envs.frames@[h as int].values@, o) is None by {
                assert(self.envs.frames@[h as int].values@.len() == 0);
            }
        }
        self.def_in(h, "this", Value::Instance(instance), Ghost(funs_len));
        Function { decl: method.decl, closure: h, is_init: method.is_init }
    }

    /// Reads a property of an instance: its own field map first, then the
    /// class method chain; a method hit produces a freshly bound function,
    /// never a cached one.  A name found in neither is an
    /// `UndefinedProperty` error.
    pub fn instance_get(&mut self, ast: &Ast, i: usize, name: &Token) -> (res: Result<
        Value,
        RuntimeError,
    >)
        requires
            state_wf(*old(self), ast.funs@.len() as int),
            i < old(self).instances@.len(),
        ensures
            state_wf(*final(self), ast.funs@.len() as int),
            state_preserved(*old(self), *final(self)),
            final(self).environment == old(self).environment,
            final(self).classes == old(self).classes,
            final(self).instances == old(self).instances,
            final(self).output == old(self).output,
            match frame_lookup(old(self).instances@[i as int].fields@, name.lexeme@) {
                Some(v) => res matches Ok(out) && out == v
                    && final(self).envs == old(self).envs,
                None => match method_lookup(
                    *old(self),
                    old(self).instances@[i as int].class as int,
                    name.lexeme@,
                ) {
                    Some(m) => res matches Ok(out) && out matches Value::Function(b)
                        && b.decl == m.decl && b.is_init == m.is_init
                        && (b.closure as int) == old(self).envs.frames@.len()
                        && final(self).envs.frames@[b.closure as int].enclosing == Some(m.closure)
                        && frame_lookup(
                            final(self).envs.frames@[b.closure as int].values@,
                            "this"@,
                        ) == Some(Value::Instance(i)),
                    None => res matches Err(e)
                        && e matches RuntimeError::UndefinedProperty { token }
                        && token == *name && final(self).envs == old(self).envs,
                },
            },
            res matches Ok(out) ==> value_wf(out, *final(self), ast.funs@.len() as int),
    {
        proof {
            assert(instance_wf(*self, i as int, ast.funs@.len() as int));
        }
        let field = crate::env::assoc_find(&self.instances[i].fields, name.lexeme.as_str());
        match field {
            Some(v) => {
                proof {
                    lemma_frame_lookup_member(self.instances@[i as int].fields@, name.lexeme@);
                }
                Ok(v)
            },
            None => {
                let class = self.instances[i].class;
                match self.find_method(ast, class, name.lexeme.as_str()) {
                    Some(m) => {
                        let b = self.bind(ast, m, i);
                        Ok(Value::Function(b))
                    },
                    None => Err(RuntimeError::UndefinedProperty { token: name.clone() }),
                }
            },
        }
    }

    /// The binding a resolved or global variable reference denotes.
    fn lookup_var(&self, distances: &Vec<Option<usize>>, name: &Token, e: ExprId, Ghost(funs_len): Ghost<int>) -> (r: Option<Value>)
        requires
            state_wf(*self, funs_len),
        ensures
            r == var_lookup(*self, distances@, e as int, name.lexeme@),
            r matches Some(v) ==> value_wf(v, *self, funs_len),
    {
        let d = if e < distances.len() {
            distances[e]
        } else {
            None
        };
        proof {
            lemma_spec_get_wf(*self, self.globals as int, name.lexeme@, funs_len);
        }
        match d {
            Some(h) => {
                proof {
                    lemma_spec_get_at_wf(*self, self.environment as int, name.lexeme@, h as nat, funs_len);
                }
                self.envs.get_at(self.environment, name.lexeme.as_str(), h)
            },
            None => self.envs.get(self.globals, name.lexeme.as_str()),
        }
    }

    /// Mutates the binding of `name` in the frame at the statically known
    /// distance above the current frame, inserting it there if absent; a
    /// chain shorter than the distance changes nothing.
    fn do_assign_at(&mut self, name: &Token, value: Value, height: usize, Ghost(funs_len): Ghost<int>)
        requires
            state_wf(*old(self), funs_len),
            value_wf(value, *old(self), funs_len),
        ensures
            state_wf(*final(self), funs_len),
            state_preserved(*old(self), *final(self)),
            final(self).environment == old(self).environment,
            final(self).classes == old(self).classes,
            final(self).instances == old(self).instances,
            final(self).output == old(self).output,
            final(self).envs.frames@.len() == old(self).envs.frames@.len(),
            match frame_at_height(old(self).envs.frames@, old(self).environment as int, height as nat) {
                Some(t) => {
                    &&& forall|k: int| 0 <= k < old(self).envs.frames@.len() && k != t
                        ==> final(self).envs.frames@[k] == old(self).envs.frames@[k]
                    &&& frame_lookup(final(self).envs.frames@[t].values@, name.lexeme@)
                        == Some(value)
                    &&& forall|o: Seq<char>| o != name.lexeme@
                        ==> frame_lookup(final(self).envs.frames@[t].values@, o)
                            == frame_lookup(old(self).envs.frames@[t].values@, o)
                },
                None => final(self).envs.frames@ == old(self).envs.frames@,
            },
    {
        let env = self.environment;
        self.envs.assign_at(env, name.clone(), value, height);
        proof {
            let a = *old(self);
            let b = *self;
            assert forall|h: int| 0 <= h < b.envs.frames@.len()
                implies #[trigger] frame_values_wf(b, h, funs_len) by {
                assert(frame_values_wf(a, h, funs_len));
                assert forall|k: int| 0 <= k < b.envs.frames@[h].values@.len()
                    implies value_wf((#[trigger] b.envs.frames@[h].values@[k]).1, b, funs_len) by {
                    match frame_at_height(a.envs.frames@, a.environment as int, height as nat) {
                        Some(t) => {
                            if h == t {
                                if k < a.envs.frames@[h].values@.len() {
                                    if b.envs.frames@[h].values@[k].1 == value {
                                    } else {
                                        assert(b.envs.frames@[h].values@[k].1
                                            == a.envs.frames@[h].values@[k].1);
                                        assert(value_wf(a.envs.frames@[h].values@[k].1, a, funs_len));
                                    }
                                } else {
                                    assert(b.envs.frames@[h].values@[k].1 == value);
                                }
                            } else {
                                assert(b.envs.frames@[h].values@[k] == a.envs.frames@[h].values@[k]);
                                assert(value_wf(a.envs.frames@[h].values@[k].1, a, funs_len));
                            }
                        },
                        None => {
                            assert(b.envs.frames@[h].values@[k] == a.envs.frames@[h].values@[k]);
                            assert(value_wf(a.envs.frames@[h].values@[k].1, a, funs_len));
                        },
                    }
                }
            }
            assert forall|c: int| 0 <= c < b.classes@.len() implies #[trigger] class_wf(b, c, funs_len) by {
                assert(class_wf(a, c, funs_len));
            }
            assert forall|i: int| 0 <= i < b.instances@.len()
                implies #[trigger] instance_wf(b, i, funs_len) by {
                assert(instance_wf(a, i, funs_len));
            }
        }
    }

    /// Mutates the binding of `name` in the innermost frame at or above
    /// `start` that has it; an unbound name is an `UndefinedVariable`
    /// error.  Unresolved assignments use the global frame as the start.
    fn do_assign_chain(&mut self, start: usize, name: Token, value: Value, Ghost(funs_len): Ghost<int>) -> (res: Result<
        (),
        RuntimeError,
    >)
        requires
            state_wf(*old(self), funs_len),
            start < old(self).envs.frames@.len(),
            value_wf(value, *old(self), funs_len),
        ensures
            state_wf(*final(self), funs_len),
            state_preserved(*old(self), *final(self)),
            final(self).environment == old(self).environment,
            final(self).classes == old(self).classes,
            final(self).instances == old(self).instances,
            final(self).output == old(self).output,
            final(self).envs.frames@.len() == old(self).envs.frames@.len(),
            match spec_owner(old(self).envs.frames@, start as int, name.lexeme@) {
                Some(o) => {
                    &&& res is Ok
                    &&& forall|k: int| 0 <= k < old(self).envs.frames@.len() && k != o
                        ==> final(self).envs.frames@[k] == old(self).envs.frames@[k]
                    &&& frame_lookup(final(self).envs.frames@[o].values@, name.lexeme@)
                        == Some(value)
                    &&& forall|other: Seq<char>| other != name.lexeme@
                        ==> frame_lookup(final(self).envs.frames@[o].values@, other)
                            == frame_lookup(old(self).envs.frames@[o].values@, other)
                },
                None => {
                    &&& res matches Err(e)
                        && (e matches RuntimeError::UndefinedVariable { token } && token == name)
                    &&& final(self).envs.frames@ == old(self).envs.frames@
                },
            },
    {
        let r = self.envs.assign(start, name, value.clone());
        proof {
            let a = *old(self);
            let b = *self;
            assert forall|h: int| 0 <= h < b.envs.frames@.len()
                implies #[trigger] frame_values_wf(b, h, funs_len) by {
                assert(frame_values_wf(a, h, funs_len));
                assert forall|k: int| 0 <= k < b.envs.frames@[h].values@.len()
                    implies value_wf((#[trigger] b.envs.frames@[h].values@[k]).1, b, funs_len) by {
                    match spec_owner(a.envs.frames@, start as int, name.lexeme@) {
                        Some(o) => {
                            if h == o {
                                if b.envs.frames@[h].values@[k].1 == value {
                                } else {
                                    assert(b.envs.frames@[h].values@[k].1
                                        == a.envs.frames@[h].values@[k].1);
                                    assert(value_wf(a.envs.frames@[h].values@[k].1, a, funs_len));
                                }
                            } else {
                                assert(b.envs.frames@[h].values@[k] == a.envs.frames@[h].values@[k]);
                                assert(value_wf(a.envs.frames@[h].values@[k].1, a, funs_len));
                            }
                        },
                        None => {
                            assert(b.envs.frames@[h].values@[k] == a.envs.frames@[h].values@[k]);
                            assert(value_wf(a.envs.frames@[h].values@[k].1, a, funs_len));
                        },
                    }
                }
            }
            assert forall|c: int| 0 <= c < b.classes@.len() implies #[trigger] class_wf(b, c, funs_len) by {
                assert(class_wf(a, c, funs_len));
            }
            assert forall|i: int| 0 <= i < b.instances@.len()
                implies #[trigger] instance_wf(b, i, funs_len) by {
                assert(instance_wf(a, i, funs_len));
            }
        }
        r
    }

    /// Rejects call targets that are not callable, and callable targets
    /// whose arity is not exactly the argument count.  A function of two
    /// parameters called with one argument is refused with expected 2,
    /// actual 1, and so for every other mismatch.
    pub fn check_callable_arity(&self, ast: &Ast, callee: &Value, paren: &Token, actual: usize) -> (res: Result<
        (),
        RuntimeError,
    >)
        requires
            state_wf(*self, ast.funs@.len() as int),
            value_wf(*callee, *self, ast.funs@.len() as int),
        ensures
            !is_callable(*callee) ==> (res matches Err(e)
                && (e matches RuntimeError::NotValidCallable { token } && token == *paren)),
            is_callable(*callee) && actual != arity_spec(*self, *ast, *callee) ==> (res matches Err(e)
                && (e matches RuntimeError::InvalidArgumentCount { token, expected, actual: act }
                    && token == *paren && expected == arity_spec(*self, *ast, *callee)
                    && act == actual)),
            is_callable(*callee) && actual == arity_spec(*self, *ast, *callee) ==> res is Ok,
    {
        match callee {
            Value::Function(_) | Value::NativeFunction(_) | Value::Class(_) => {},
            _ => {
                return Err(RuntimeError::NotValidCallable { token: paren.clone() });
            },
        }
        let expected = self.arity(ast, callee);
        if actual != expected {
            return Err(RuntimeError::InvalidArgumentCount {
                token: paren.clone(),
                expected,
                actual,
            });
        }
        Ok(())
    }

    /// Invokes a native function from the catalog.  The clock intrinsic
    /// returns the seconds since the Unix epoch as a number; its value
    /// depends on the wall clock, so only its kind is promised.
    fn call_native(&mut self, n: usize, Ghost(funs_len): Ghost<int>) -> (res: Result<
        Value,
        RuntimeError,
    >)
        requires
            state_wf(*old(self), funs_len),
            n < old(self).natives@.len(),
        ensures
            state_wf(*final(self), funs_len),
            *final(self) == *old(self),
            res matches Ok(v) && (v is Number || v is Nil),
            old(self).natives@[n as int].name@ == "clock"@
                ==> (res matches Ok(v) && v is Number),
    {
        if str_eq(self.natives[n].name.as_str(), "clock") {
            let ms = now_unix_millis();
            let msf = number_from_int(ms);
            let secs = number_div(msf, MILLIS_PER_SECOND_BITS);
            Ok(Value::Number(secs))
        } else {
            Ok(Value::Nil)
        }
    }

    /// Evaluates one expression.  With a recorded distance a variable or
    /// `this` read goes straight to the declaring frame; without one it is
    /// looked up by name in the global frame, and absence is an
    /// `UndefinedVariable` error.  A `super.name` read looks the method up
    /// starting at the superclass — deliberately skipping the calling
    /// class's own override — and hands back a fresh bound method.
    #[verifier::loop_isolation(false)]
    pub fn eval_expr(&mut self, ast: &Ast, distances: &Vec<Option<usize>>, e: ExprId, fuel: u64) -> (res: Result<
        Value,
        RuntimeError,
    >)
        requires
            crate::ast::wf_ast(*ast),
            e < ast.exprs@.len(),
            distances@.len() == ast.exprs@.len(),
            state_wf(*old(self), ast.funs@.len() as int),
        ensures
            state_wf(*final(self), ast.funs@.len() as int),
            state_preserved(*old(self), *final(self)),
            final(self).environment == old(self).environment,
            res matches Ok(v) ==> value_wf(v, *final(self), ast.funs@.len() as int),
            res matches Err(RuntimeError::Return(rv)) ==> (rv matches Some(v2)
                && value_wf(v2, *final(self), ast.funs@.len() as int)),
            fuel == 0 ==> (res matches Err(e2) && e2 is StackOverflow),
            fuel > 0 ==> match ast.exprs@[e as int] {
                crate::ast::Expr::Literal(lit) => *final(self) == *old(self)
                    && (res matches Ok(v) && literal_value_rel(lit, v)),
                crate::ast::Expr::Variable { name } => *final(self) == *old(self)
                    && match var_lookup(*old(self), distances@, e as int, name.lexeme@) {
                    Some(v) => res matches Ok(out) && out == v,
                    None => res matches Err(err)
                        && (err matches RuntimeError::UndefinedVariable { token }
                            && token == name),
                },
                crate::ast::Expr::This { keyword } => *final(self) == *old(self)
                    && match var_lookup(*old(self), distances@, e as int, keyword.lexeme@) {
                    Some(v) => res matches Ok(out) && out == v,
                    None => res matches Err(err)
                        && (err matches RuntimeError::UndefinedVariable { token }
                            && token == keyword),
                },
                crate::ast::Expr::Asign { name, .. } => res matches Ok(v) ==> {
                    &&& ((e as int) < distances@.len() ==> (distances@[e as int] matches Some(ht)
                        ==> (frame_at_height(
                            final(self).envs.frames@,
                            old(self).environment as int,
                            ht as nat,
                        ) matches Some(t)
                            ==> frame_lookup(
                                final(self).envs.frames@[t].values@,
                                name.lexeme@,
                            ) == Some(v))))
                    &&& (!((e as int) < distances@.len() && distances@[e as int] is Some)
                        ==> exists|o: int| 0 <= o < final(self).envs.frames@.len()
                            && #[trigger] frame_lookup(
                                final(self).envs.frames@[o].values@,
                                name.lexeme@,
                            ) == Some(v))
                },
                crate::ast::Expr::SetProp { name, .. } => res matches Ok(v)
                    ==> exists|ii: int| 0 <= ii < final(self).instances@.len()
                        && #[trigger] frame_lookup(
                            final(self).instances@[ii].fields@,
                            name.lexeme@,
                        ) == Some(v),
                crate::ast::Expr::Super { keyword, method } => {
                    (e as int) < distances@.len() ==> (distances@[e as int] matches Some(d)
                        ==> (d >= 1 ==> (spec_get_at(
                        old(self).envs.frames@,
                        old(self).environment as int,
                        "super"@,
                        d as nat,
                    ) matches Some(Value::Class(sc)) ==> (spec_get_at(
                        old(self).envs.frames@,
                        old(self).environment as int,
                        "this"@,
                        (d - 1) as nat,
                    ) matches Some(Value::Instance(inst))
                        ==> match method_lookup(*old(self), sc as int, method.lexeme@) {
                        Some(m) => res matches Ok(out) && (out matches Value::Function(b)
                            && b.decl == m.decl && b.is_init == m.is_init
                            && (b.closure as int) == old(self).envs.frames@.len()
                            && final(self).envs.frames@[b.closure as int].enclosing
                                == Some(m.closure)
                            && frame_lookup(
                                final(self).envs.frames@[b.closure as int].values@,
                                "this"@,
                            ) == Some(Value::Instance(inst))),
                        None => res matches Err(err)
                            && (err matches RuntimeError::UndefinedProperty { token }
                                && token == method),
                    }))))
                },
                _ => true,
            },
        decreases fuel,
    {
        if fuel == 0 {
            return Err(RuntimeError::StackOverflow);
        }
        let fuel = fuel - 1;
        let ghost funs_len = ast.funs@.len() as int;
        proof {
            assert(crate::ast::wf_expr_at(*ast, e as int));
        }
        match &ast.exprs[e] {
            crate::ast::Expr::Literal(lit) => Ok(Value::from_literal(lit)),
            crate::ast::Expr::Grouping(sub) => self.eval_expr(ast, distances, *sub, fuel),
            crate::ast::Expr::Unary { operator, expr } => {
                let v = match self.eval_expr(ast, distances, *expr, fuel) {
                    Ok(v) => v,
                    Err(er) => {
                        return Err(er);
                    },
                };
                self.apply_unary(operator, v)
            },
            crate::ast::Expr::Binary { left, operator, right } => {
                let lv = match self.eval_expr(ast, distances, *left, fuel) {
                    Ok(v) => v,
                    Err(er) => {
                        return Err(er);
                    },
                };
                let rv = match self.eval_expr(ast, distances, *right, fuel) {
                    Ok(v) => v,
                    Err(er) => {
                        return Err(er);
                    },
                };
                proof {
                    lemma_value_wf_preserved(lv, *self, *self, funs_len);
                }
                self.apply_binary(ast, operator, lv, rv)
            },
            crate::ast::Expr::Variable { name } => {
                match self.lookup_var(distances, name, e, Ghost(funs_len)) {
                    Some(v) => Ok(v),
                    None => Err(RuntimeError::UndefinedVariable { token: name.clone() }),
                }
            },
            crate::ast::Expr::This { keyword } => {
                match self.lookup_var(distances, keyword, e, Ghost(funs_len)) {
                    Some(v) => Ok(v),
                    None => Err(RuntimeError::UndefinedVariable { token: keyword.clone() }),
                }
            },
            crate::ast::Expr::Asign { name, value } => {
                let v = match self.eval_expr(ast, distances, *value, fuel) {
                    Ok(v) => v,
                    Err(er) => {
                        return Err(er);
                    },
                };
                let d = if e < distances.len() {
                    distances[e]
                } else {
                    None
                };
                let ghost p = *self;
                match d {
                    Some(h) => {
                        self.do_assign_at(name, v.clone(), h, Ghost(funs_len));
                        proof {
                            lemma_frame_at_height_preserved(
                                p.envs.frames@,
                                self.envs.frames@,
                                old(self).environment as int,
                                h as nat,
                            );
                        }
                    },
                    None => {
                        let g = self.globals;
                        match self.do_assign_chain(g, name.clone(), v.clone(), Ghost(funs_len)) {
                            Ok(()) => {},
                            Err(er) => {
                                proof {
                                    lemma_preserved_trans(*old(self), p, *self);
                                }
                                return Err(er);
                            },
                        }
                    },
                }
                proof {
                    lemma_preserved_trans(*old(self), p, *self);
                    lemma_value_wf_preserved(v, p, *self, funs_len);
                }
                Ok(v)
            },
            crate::ast::Expr::LogicalOr { left, right } => {
                let lv = match self.eval_expr(ast, distances, *left, fuel) {
                    Ok(v) => v,
                    Err(er) => {
                        return Err(er);
                    },
                };
                if crate::value::is_true(&lv) {
                    Ok(lv)
                } else {
                    self.eval_expr(ast, distances, *right, fuel)
                }
            },
            crate::ast::Expr::LogicalAnd { left, right } => {
                let lv = match self.eval_expr(ast, distances, *left, fuel) {
                    Ok(v) => v,
                    Err(er) => {
                        return Err(er);
                    },
                };
                if !crate::value::is_true(&lv) {
                    Ok(lv)
                } else {
                    self.eval_expr(ast, distances, *right, fuel)
                }
            },
            crate::ast::Expr::Call { callee, paren, args } => {
                let cv = match self.eval_expr(ast, distances, *callee, fuel) {
                    Ok(v) => v,
                    Err(er) => {
                        return Err(er);
                    },
                };
                match self.check_callable_arity(ast, &cv, paren, args.len()) {
                    Ok(()) => {},
                    Err(er) => {
                        return Err(er);
                    },
                }
                let ghost chk = *self;
                let mut argv: Vec<Value> = Vec::new();
                let mut k: usize = 0;
                while k < args.len()
                    invariant
                        k <= args@.len(),
                        argv@.len() == k,
                        state_wf(*self, funs_len),
                        state_preserved(*old(self), *self),
                        state_preserved(chk, *self),
                        self.environment == old(self).environment,
                        value_wf(cv, *self, funs_len),
                        forall|j: int| 0 <= j < argv@.len()
                            ==> value_wf(#[trigger] argv@[j], *self, funs_len),
                    decreases args@.len() - k,
                {
                    let ghost mid = *self;
                    let av = match self.eval_expr(ast, distances, args[k], fuel) {
                        Ok(v) => v,
                        Err(er) => {
                            return Err(er);
                        },
                    };
                    argv.push(av);
                    proof {
                        lemma_preserved_trans(*old(self), mid, *self);
                        lemma_preserved_trans(chk, mid, *self);
                        lemma_value_wf_preserved(cv, mid, *self, funs_len);
                        assert forall|j: int| 0 <= j < argv@.len()
                            implies value_wf(#[trigger] argv@[j], *self, funs_len) by {
                            if j < argv@.len() - 1 {
                                lemma_value_wf_preserved(argv@[j], mid, *self, funs_len);
                            }
                        }
                    }
                    k = k + 1;
                }
                proof {
                    lemma_arity_preserved(chk, *self, *ast, cv, funs_len);
                }
                match cv {
                    Value::Function(f) => self.call_function(ast, distances, f, argv, fuel),
                    Value::NativeFunction(n) => self.call_native(n, Ghost(funs_len)),
                    Value::Class(c) => self.call_class(ast, distances, c, argv, fuel),
                    _ => {
                        proof {
                            assert(false);
                        }
                        Err(RuntimeError::NotValidCallable { token: paren.clone() })
                    },
                }
            },
            crate::ast::Expr::Get { object, name } => {
                let ov = match self.eval_expr(ast, distances, *object, fuel) {
                    Ok(v) => v,
                    Err(er) => {
                        return Err(er);
                    },
                };
                match ov {
                    Value::Instance(i) => self.instance_get(ast, i, name),
                    _ => Err(RuntimeError::NotAnInstance { token: name.clone() }),
                }
            },
            crate::ast::Expr::SetProp { object, name, value } => {
                let ov = match self.eval_expr(ast, distances, *object, fuel) {
                    Ok(v) => v,
                    Err(er) => {
                        return Err(er);
                    },
                };
                let i = match ov {
                    Value::Instance(i) => i,
                    _ => {
                        return Err(RuntimeError::NotAnInstance { token: name.clone() });
                    },
                };
                let ghost mid = *self;
                let v = match self.eval_expr(ast, distances, *value, fuel) {
                    Ok(v) => v,
                    Err(er) => {
                        return Err(er);
                    },
                };
                proof {
                    lemma_preserved_trans(*old(self), mid, *self);
                }
                let ghost p = *self;
                self.instance_set(ast, i, name, v.clone());
                proof {
                    lemma_preserved_trans(*old(self), p, *self);
                    lemma_value_wf_preserved(v, p, *self, funs_len);
                    assert(frame_lookup(
                        self.instances@[i as int].fields@,
                        name.lexeme@,
                    ) == Some(v));
                }
                Ok(v)
            },
            crate::ast::Expr::Super { keyword, method } => {
                let d_opt = if e < distances.len() {
                    distances[e]
                } else {
                    None
                };
                let d = match d_opt {
                    Some(d) => d,
                    None => {
                        return Err(RuntimeError::UndefinedVariable { token: keyword.clone() });
                    },
                };
                proof {
                    lemma_spec_get_at_wf(*self, self.environment as int, "super"@, d as nat, funs_len);
                }
                let sv = self.envs.get_at(self.environment, "super", d);
                let sc = match sv {
                    Some(Value::Class(sc)) => sc,
                    _ => {
                        return Err(RuntimeError::UndefinedVariable { token: keyword.clone() });
                    },
                };
                if d == 0 {
                    return Err(RuntimeError::UndefinedVariable { token: keyword.clone() });
                }
                proof {
                    lemma_spec_get_at_wf(
                        *self,
                        self.environment as int,
                        "this"@,
                        (d - 1) as nat,
                        funs_len,
                    );
                }
                let tv = self.envs.get_at(self.environment, "this", d - 1);
                let inst = match tv {
                    Some(Value::Instance(i)) => i,
                    _ => {
                        return Err(RuntimeError::UndefinedVariable { token: keyword.clone() });
                    },
                };
                match self.find_method(ast, sc, method.lexeme.as_str()) {
                    Some(m) => {
                        let b = self.bind(ast, m, inst);
                        Ok(Value::Function(b))
                    },
                    None => Err(RuntimeError::UndefinedProperty { token: method.clone() }),
                }
            },
        }
    }

    /// Runs the call protocol for a function value: a fresh frame is
    /// created as a child of the function's captured closure — never of
    /// the caller's frame — the parameters are bound there in order, and
    /// the body runs in that frame.  A `Return` signal is caught here and
    /// supplies the result, `Nil` without one; an initializer always
    /// yields the `this` of its closure instead.
    #[verifier::loop_isolation(false)]
    pub fn call_function(&mut self, ast: &Ast, distances: &Vec<Option<usize>>, f: Function, args: Vec<
        Value,
    >, fuel: u64) -> (res: Result<Value, RuntimeError>)
        requires
            crate::ast::wf_ast(*ast),
            distances@.len() == ast.exprs@.len(),
            state_wf(*old(self), ast.funs@.len() as int),
            (f.decl as int) < ast.funs@.len(),
            f.closure < old(self).envs.frames@.len(),
            args@.len() == ast.funs@[f.decl as int].params@.len(),
            forall|j: int| 0 <= j < args@.len()
                ==> value_wf(#[trigger] args@[j], *old(self), ast.funs@.len() as int),
        ensures
            state_wf(*final(self), ast.funs@.len() as int),
            state_preserved(*old(self), *final(self)),
            final(self).environment == old(self).environment,
            res matches Ok(v) ==> value_wf(v, *final(self), ast.funs@.len() as int),
            f.is_init ==> (res matches Ok(v)
                ==> spec_get(final(self).envs.frames@, f.closure as int, "this"@) == Some(v)),
            res matches Err(e2) ==> !(e2 is Return),
            fuel == 0 ==> (res matches Err(e2) && e2 is StackOverflow),
            fuel > 0 ==> final(self).envs.frames@.len() > old(self).envs.frames@.len()
                && final(self).envs.frames@[old(self).envs.frames@.len() as int].enclosing
                    == Some(f.closure),
            fuel > 0 ==> forall|pi: int| 0 <= pi < ast.funs@[f.decl as int].params@.len()
                ==> frame_lookup(
                    final(self).envs.frames@[old(self).envs.frames@.len() as int].values@,
                    (#[trigger] ast.funs@[f.decl as int].params@[pi]).lexeme@,
                ) is Some,
            fuel >= 2 && ast.funs@[f.decl as int].body@.len() == 0 && !f.is_init
                ==> (res matches Ok(v) && v == Value::Nil),
            fuel >= 3 && ast.funs@[f.decl as int].params@.len() == 0
                && ast.funs@[f.decl as int].body@.len() == 1
                && (ast.stmts@[ast.funs@[f.decl as int].body@[0] as int]
                    matches crate::ast::Statement::Return(r3) && r3.value is None)
                && (f.is_init ==> spec_get(
                    old(self).envs.frames@,
                    f.closure as int,
                    "this"@,
                ) is Some) ==> res is Ok,
        decreases fuel,
    {
        if fuel == 0 {
            return Err(RuntimeError::StackOverflow);
        }
        let fuel = fuel - 1;
        let ghost funs_len = ast.funs@.len() as int;
        let frame = self.fresh_frame(f.closure, Ghost(funs_len));
        let ghost framed = *self;
        let params = &ast.funs[f.decl].params;
        let mut k: usize = 0;
        while k < params.len()
            invariant
                k <= params@.len(),
                state_wf(*self, funs_len),
                state_preserved(*old(self), *self),
                state_preserved(framed, *self),
                self.environment == old(self).environment,
                frame < self.envs.frames@.len(),
                forall|j: int| 0 <= j < old(self).envs.frames@.len()
                    ==> (#[trigger] self.envs.frames@[j]) == old(self).envs.frames@[j],
                forall|j: int| 0 <= j < args@.len()
                    ==> value_wf(#[trigger] args@[j], *self, funs_len),
                forall|pi: int| 0 <= pi < k ==> frame_lookup(
                    self.envs.frames@[frame as int].values@,
                    (#[trigger] params@[pi]).lexeme@,
                ) is Some,
            decreases params@.len() - k,
        {
            let ghost mid = *self;
            let av = args[k].clone();
            self.def_in(frame, params[k].lexeme.as_str(), av, Ghost(funs_len));
            proof {
                lemma_preserved_trans(*old(self), mid, *self);
                lemma_preserved_trans(framed, mid, *self);
                assert forall|j: int| 0 <= j < args@.len()
                    implies value_wf(#[trigger] args@[j], *self, funs_len) by {
                    lemma_value_wf_preserved(args@[j], mid, *self, funs_len);
                }
            }
            k = k + 1;
        }
        proof {
            assert(crate::ast::wf_fun_at(*ast, f.decl as int));
        }
        let body = &ast.funs[f.decl].body;
        let ghost pre_block = *self;
        let r = self.interpret_block(ast, distances, body, frame, fuel);
        proof {
            lemma_preserved_trans(framed, pre_block, *self);
            assert(self.envs.frames@[frame as int].enclosing == Some(f.closure));
            if f.is_init && self.envs == pre_block.envs
                && spec_get(old(self).envs.frames@, f.closure as int, "this"@) is Some {
                lemma_spec_get_append(
                    old(self).envs.frames@,
                    self.envs.frames@,
                    f.closure as int,
                    "this"@,
                );
            }
        }
        match r {
            Ok(()) => {
                if f.is_init {
                    self.read_this_of(ast, f)
                } else {
                    Ok(Value::Nil)
                }
            },
            Err(er) => {
                match er {
                    RuntimeError::Return(v) => {
                        if f.is_init {
                            self.read_this_of(ast, f)
                        } else {
                            match v {
                                Some(v) => Ok(v),
                                None => Ok(Value::Nil),
                            }
                        }
                    },
                    other => Err(other),
                }
            },
        }
    }

    /// The `this` bound in an initializer's closure: an initializer's call
    /// result is always the constructed instance, read back out of the
    /// bound frame, whatever the body returned.
    fn read_this_of(&self, ast: &Ast, f: Function) -> (res: Result<Value, RuntimeError>)
        requires
            state_wf(*self, ast.funs@.len() as int),
            (f.decl as int) < ast.funs@.len(),
            f.closure < self.envs.frames@.len(),
        ensures
            res matches Ok(v) ==> value_wf(v, *self, ast.funs@.len() as int)
                && spec_get(self.envs.frames@, f.closure as int, "this"@) == Some(v),
            spec_get(self.envs.frames@, f.closure as int, "this"@) is Some ==> res is Ok,
            res matches Err(e2) ==> !(e2 is Return),
    {
        proof {
            lemma_spec_get_wf(*self, f.closure as int, "this"@, ast.funs@.len() as int);
        }
        match self.envs.get(f.closure, "this") {
            Some(v) => Ok(v),
            None => Err(RuntimeError::UndefinedVariable { token: ast.funs[f.decl].name.clone() }),
        }
    }

    /// Calling a class constructs a fresh instance of it and, if an `init`
    /// method exists anywhere in the ancestor chain, binds and invokes it
    /// with the same arguments.  The call's result is always the
    /// constructed instance, regardless of what the initializer returned.
    pub fn call_class(&mut self, ast: &Ast, distances: &Vec<Option<usize>>, class: usize, args: Vec<
        Value,
    >, fuel: u64) -> (res: Result<Value, RuntimeError>)
        requires
            crate::ast::wf_ast(*ast),
            distances@.len() == ast.exprs@.len(),
            state_wf(*old(self), ast.funs@.len() as int),
            class < old(self).classes@.len(),
            args@.len() == arity_spec(*old(self), *ast, Value::Class(class)),
            forall|j: int| 0 <= j < args@.len()
                ==> value_wf(#[trigger] args@[j], *old(self), ast.funs@.len() as int),
        ensures
            state_wf(*final(self), ast.funs@.len() as int),
            state_preserved(*old(self), *final(self)),
            final(self).environment == old(self).environment,
            res matches Ok(v) ==> v == Value::Instance(old(self).instances@.len() as usize)
                && final(self).instances@.len() > old(self).instances@.len()
                && final(self).instances@[old(self).instances@.len() as int].class == class,
            res matches Err(e2) ==> !(e2 is Return),
            fuel == 0 ==> (res matches Err(e2) && e2 is StackOverflow),
            fuel > 0 && method_lookup(*old(self), class as int, "init"@) is None ==> res is Ok,
            fuel >= 4 ==> ((method_lookup(*old(self), class as int, "init"@) matches Some(ini)
                && ast.funs@[ini.decl as int].params@.len() == 0
                && ast.funs@[ini.decl as int].body@.len() == 1
                && (ast.stmts@[ast.funs@[ini.decl as int].body@[0] as int]
                    matches crate::ast::Statement::Return(r3) && r3.value is None))
                ==> res is Ok),
            res is Ok ==> (method_lookup(*old(self), class as int, "init"@) matches Some(ini)
                ==> final(self).envs.frames@.len() > old(self).envs.frames@.len()
                    && final(self).envs.frames@[old(self).envs.frames@.len() as int].enclosing
                        == Some(ini.closure)
                    && frame_lookup(
                        final(self).envs.frames@[old(self).envs.frames@.len() as int].values@,
                        "this"@,
                    ) is Some),
        decreases fuel,
    {
        if fuel == 0 {
            return Err(RuntimeError::StackOverflow);
        }
        let fuel = fuel - 1;
        let ghost funs_len = ast.funs@.len() as int;
        let h = self.push_instance(class, Ghost(funs_len));
        proof {
            lemma_method_lookup_grow(*old(self), *self, class as int, "init"@, funs_len);
        }
        let ghost mid = *self;
        match self.find_method(ast, class, "init") {
            Some(init) => {
                let bound = self.bind(ast, init, h);
                let ghost mid2 = *self;
                proof {
                    lemma_preserved_trans(*old(self), mid, *self);
                    assert forall|j: int| 0 <= j < args@.len()
                        implies value_wf(#[trigger] args@[j], *self, funs_len) by {
                        lemma_value_wf_preserved(args@[j], *old(self), *self, funs_len);
                    }
                }
                proof {
                    lemma_method_lookup_grow(*old(self), mid, class as int, "init"@, funs_len);
                    assert(method_lookup(mid, class as int, "init"@)
                        == method_lookup(*old(self), class as int, "init"@));
                    assert(spec_owner(self.envs.frames@, bound.closure as int, "this"@)
                        == Some(bound.closure as int));
                    assert(spec_get(self.envs.frames@, bound.closure as int, "this"@) is Some);
                }
                match self.call_function(ast, distances, bound, args, fuel) {
                    Ok(_ignored) => {
                        proof {
                            lemma_preserved_trans(*old(self), mid2, *self);
                            assert(mid2.envs.frames@[old(self).envs.frames@.len() as int].enclosing
                                == Some(init.closure));
                            assert(frame_lookup(
                                mid2.envs.frames@[old(self).envs.frames@.len() as int].values@,
                                "this"@,
                            ) is Some);
                        }
                        Ok(Value::Instance(h))
                    },
                    Err(er) => {
                        proof {
                            lemma_preserved_trans(*old(self), mid2, *self);
                        }
                        Err(er)
                    },
                }
            },
            None => Ok(Value::Instance(h)),
        }
    }

    /// Executes the given statements in the frame `env`, restoring the
    /// prior current frame on every exit path — normal completion, error
    /// or non-local return — so no scope is ever leaked.
    #[verifier::loop_isolation(false)]
    pub fn interpret_block(&mut self, ast: &Ast, distances: &Vec<Option<usize>>, stmts: &Vec<StmtId>, env: usize, fuel: u64) -> (res: Result<
        (),
        RuntimeError,
    >)
        requires
            crate::ast::wf_ast(*ast),
            distances@.len() == ast.exprs@.len(),
            state_wf(*old(self), ast.funs@.len() as int),
            env < old(self).envs.frames@.len(),
            forall|k: int| 0 <= k < stmts@.len()
                ==> (#[trigger] stmts@[k] as int) < ast.stmts@.len(),
        ensures
            state_wf(*final(self), ast.funs@.len() as int),
            state_preserved(*old(self), *final(self)),
            final(self).environment == old(self).environment,
            res matches Err(RuntimeError::Return(rv)) ==> (rv matches Some(v2)
                && value_wf(v2, *final(self), ast.funs@.len() as int)),
            fuel == 0 ==> (res matches Err(e2) && e2 is StackOverflow),
            fuel > 0 && stmts@.len() == 0 ==> res is Ok,
            fuel > 1 && stmts@.len() == 1 ==> ((ast.stmts@[stmts@[0] as int]
                matches crate::ast::Statement::Return(r2) && r2.value is None)
                ==> (res matches Err(e4)
                    && (e4 matches RuntimeError::Return(rv3) && rv3 == Some(Value::Nil)))
                    && final(self).envs == old(self).envs),
            res is Ok ==> forall|i: int| 0 <= i < stmts@.len()
                ==> (ast.stmts@[#[trigger] stmts@[i] as int]
                    matches crate::ast::Statement::VarDecl(v)
                    ==> frame_lookup(
                        final(self).envs.frames@[env as int].values@,
                        v.name.lexeme@,
                    ) is Some),
            res is Ok ==> final(self).output@.len()
                >= old(self).output@.len() + print_count(*ast, stmts@),
            fuel > 1 && (forall|i: int| 0 <= i < stmts@.len()
                ==> (ast.stmts@[#[trigger] stmts@[i] as int]
                        matches crate::ast::Statement::FunDecl(_)
                    || (ast.stmts@[stmts@[i] as int]
                        matches crate::ast::Statement::VarDecl(v)
                        && v.initializer is None))) ==> res is Ok,
        decreases fuel,
    {
        if fuel == 0 {
            return Err(RuntimeError::StackOverflow);
        }
        let fuel = fuel - 1;
        let old_env = self.environment;
        let ghost entry = *self;
        self.environment = env;
        proof {
            lemma_state_wf_env_change(entry, *self, ast.funs@.len() as int);
        }
        let mut k: usize = 0;
        while k < stmts.len()
            invariant
                k <= stmts@.len(),
                state_wf(*self, ast.funs@.len() as int),
                state_preserved(*old(self), *self),
                self.environment == env,
                env < self.envs.frames@.len(),
                fuel > 0 && stmts@.len() == 1 ==> ((ast.stmts@[stmts@[0] as int]
                    matches crate::ast::Statement::Return(r2) && r2.value is None) ==> k == 0),
                k == 0 ==> self.envs == old(self).envs,
                forall|i: int| 0 <= i < k ==> (ast.stmts@[#[trigger] stmts@[i] as int]
                    matches crate::ast::Statement::VarDecl(v)
                    ==> frame_lookup(
                        self.envs.frames@[env as int].values@,
                        v.name.lexeme@,
                    ) is Some),
                self.output@.len() >= old(self).output@.len()
                    + print_count(*ast, stmts@.take(k as int)),
            decreases stmts@.len() - k,
        {
            let ghost mid = *self;
            match self.eval_stmt(ast, distances, stmts[k], fuel) {
                Ok(()) => {},
                Err(er) => {
                    proof {
                        lemma_preserved_trans(*old(self), mid, *self);
                        if fuel > 0 && (forall|i: int| 0 <= i < stmts@.len()
                            ==> (ast.stmts@[#[trigger] stmts@[i] as int]
                                    matches crate::ast::Statement::FunDecl(_)
                                || (ast.stmts@[stmts@[i] as int]
                                    matches crate::ast::Statement::VarDecl(v)
                                    && v.initializer is None))) {
                            assert(ast.stmts@[stmts@[k as int] as int]
                                matches crate::ast::Statement::FunDecl(_)
                                || (ast.stmts@[stmts@[k as int] as int]
                                    matches crate::ast::Statement::VarDecl(v)
                                    && v.initializer is None));
                            assert(false);
                        }
                    }
                    let ghost pre = *self;
                    self.environment = old_env;
                    proof {
                        lemma_state_wf_env_change(pre, *self, ast.funs@.len() as int);
                        lemma_preserved_trans(*old(self), pre, *self);
                        match &er {
                            RuntimeError::Return(Some(v2)) => {
                                lemma_value_wf_preserved(*v2, pre, *self, ast.funs@.len() as int);
                            },
                            _ => {},
                        }
                        if fuel > 0 && k == 0 && stmts@.len() == 1 {
                            match ast.stmts@[stmts@[0] as int] {
                                crate::ast::Statement::Return(r2) => {
                                    if r2.value is None {
                                        assert(pre.envs == mid.envs);
                                        assert(self.envs == old(self).envs);
                                    }
                                },
                                _ => {},
                            }
                        }
                    }
                    return Err(er);
                },
            }
            proof {
                lemma_preserved_trans(*old(self), mid, *self);
                assert(stmts@.take(k + 1).drop_last() =~= stmts@.take(k as int));
                assert(stmts@.take(k + 1).last() == stmts@[k as int]);
                assert forall|i: int| 0 <= i < k + 1
                    implies (ast.stmts@[#[trigger] stmts@[i] as int]
                        matches crate::ast::Statement::VarDecl(v)
                        ==> frame_lookup(
                            self.envs.frames@[env as int].values@,
                            v.name.lexeme@,
                        ) is Some) by {
                    if i < k {
                        match ast.stmts@[stmts@[i] as int] {
                            crate::ast::Statement::VarDecl(v) => {
                                assert(frame_lookup(
                                    mid.envs.frames@[env as int].values@,
                                    v.name.lexeme@,
                                ) is Some);
                            },
                            _ => {},
                        }
                    }
                }
            }
            k = k + 1;
        }
        proof {
            assert(stmts@.take(stmts@.len() as int) =~= stmts@);
        }
        let ghost pre2 = *self;
        self.environment = old_env;
        proof {
            lemma_state_wf_env_change(pre2, *self, ast.funs@.len() as int);
            lemma_preserved_trans(*old(self), pre2, *self);
        }
        Ok(())
    }

    /// Executes one statement.  The current frame is restored on every
    /// exit path; declarations bind their name in the current frame, and
    /// a function declaration closes over the current frame itself, by
    /// reference, so later mutations of outer variables stay visible to
    /// the closure.
    #[verifier::loop_isolation(false)]
    pub fn eval_stmt(&mut self, ast: &Ast, distances: &Vec<Option<usize>>, s: StmtId, fuel: u64) -> (res: Result<
        (),
        RuntimeError,
    >)
        requires
            crate::ast::wf_ast(*ast),
            s < ast.stmts@.len(),
            distances@.len() == ast.exprs@.len(),
            state_wf(*old(self), ast.funs@.len() as int),
        ensures
            state_wf(*final(self), ast.funs@.len() as int),
            state_preserved(*old(self), *final(self)),
            final(self).environment == old(self).environment,
            res matches Err(RuntimeError::Return(rv)) ==> (rv matches Some(v2)
                && value_wf(v2, *final(self), ast.funs@.len() as int)),
            fuel == 0 ==> (res matches Err(e2) && e2 is StackOverflow),
            match ast.stmts@[s as int] {
                crate::ast::Statement::Print(_) => res is Ok
                    ==> final(self).output@.len() > old(self).output@.len(),
                crate::ast::Statement::VarDecl(v) => {
                    &&& (res is Ok ==> frame_lookup(
                        final(self).envs.frames@[old(self).environment as int].values@,
                        v.name.lexeme@,
                    ) is Some)
                    &&& (fuel > 0 && v.initializer is None ==> res is Ok && frame_lookup(
                        final(self).envs.frames@[old(self).environment as int].values@,
                        v.name.lexeme@,
                    ) == Some(Value::Nil))
                },
                crate::ast::Statement::FunDecl(fd) => {
                    &&& (fuel > 0 ==> res is Ok)
                    &&& res is Ok ==> frame_lookup(
                        final(self).envs.frames@[old(self).environment as int].values@,
                        ast.funs@[fd as int].name.lexeme@,
                    ) == Some(
                        Value::Function(
                            (Function {
                                decl: fd,
                                closure: old(self).environment,
                                is_init: false,
                            }),
                        ),
                    )
                },
                crate::ast::Statement::Return(r) => {
                    &&& res is Err
                    &&& (fuel > 0 && r.value is None ==> (res matches Err(e3)
                        && (e3 matches RuntimeError::Return(rv2) && rv2 == Some(Value::Nil)))
                        && final(self).envs == old(self).envs
                        && final(self).classes == old(self).classes
                        && final(self).instances == old(self).instances
                        && final(self).output == old(self).output)
                },
                crate::ast::Statement::ClassDecl(c) => {
                    &&& (fuel > 1 && c.superclass is None ==> res is Ok)
                    &&& (fuel > 2 ==> (c.superclass matches Some(sup)
                        ==> (ast.exprs@[sup as int] matches crate::ast::Expr::Variable {
                            name: sn,
                        } ==> match var_lookup(*old(self), distances@, sup as int, sn.lexeme@) {
                            Some(v2) => if v2 is Class {
                                res is Ok
                            } else {
                                (res matches Err(e3)
                                    && (e3 matches RuntimeError::SuperclassMustBeAClass { token }
                                        && token == sn)) && *final(self) == *old(self)
                            },
                            None => (res matches Err(e3)
                                && (e3 matches RuntimeError::UndefinedVariable { token }
                                    && token == sn)) && *final(self) == *old(self),
                        })))
                    &&& (res is Ok ==> class_decl_ok(
                        *old(self),
                        *final(self),
                        *ast,
                        distances@,
                        c,
                    ))
                },
                _ => true,
            },
        decreases fuel,
    {
        if fuel == 0 {
            return Err(RuntimeError::StackOverflow);
        }
        let fuel = fuel - 1;
        let ghost funs_len = ast.funs@.len() as int;
        proof {
            assert(crate::ast::wf_stmt_at(*ast, s as int));
        }
        match &ast.stmts[s] {
            crate::ast::Statement::VarDecl(v) => {
                let value = match v.initializer {
                    Some(init) => {
                        match self.eval_expr(ast, distances, init, fuel) {
                            Ok(v2) => v2,
                            Err(er) => {
                                return Err(er);
                            },
                        }
                    },
                    None => Value::Nil,
                };
                let env = self.environment;
                let ghost mid = *self;
                self.def_in(env, v.name.lexeme.as_str(), value, Ghost(funs_len));
                proof {
                    lemma_preserved_trans(*old(self), mid, *self);
                }
                Ok(())
            },
            crate::ast::Statement::FunDecl(fd) => {
                let func = Value::Function(Function {
                    decl: *fd,
                    closure: self.environment,
                    is_init: false,
                });
                let env = self.environment;
                self.def_in(env, ast.funs[*fd].name.lexeme.as_str(), func, Ghost(funs_len));
                Ok(())
            },
            crate::ast::Statement::Print(p) => {
                let v = match self.eval_expr(ast, distances, p.expr, fuel) {
                    Ok(v) => v,
                    Err(er) => {
                        return Err(er);
                    },
                };
                let line = self.stringify(ast, &v);
                let ghost mid = *self;
                self.print_line(line, Ghost(funs_len));
                proof {
                    lemma_preserved_trans(*old(self), mid, *self);
                }
                Ok(())
            },
            crate::ast::Statement::Expr(es) => {
                match self.eval_expr(ast, distances, es.expr, fuel) {
                    Ok(_v) => Ok(()),
                    Err(er) => Err(er),
                }
            },
            crate::ast::Statement::Block(b) => {
                let cur = self.environment;
                let child = self.fresh_frame(cur, Ghost(funs_len));
                let ghost mid = *self;
                let r = self.interpret_block(ast, distances, &b.statements, child, fuel);
                proof {
                    lemma_preserved_trans(*old(self), mid, *self);
                }
                r
            },
            crate::ast::Statement::If(i) => {
                let c = match self.eval_expr(ast, distances, i.condition, fuel) {
                    Ok(v) => v,
                    Err(er) => {
                        return Err(er);
                    },
                };
                let ghost mid = *self;
                let r = if crate::value::is_true(&c) {
                    self.eval_stmt(ast, distances, i.if_branch, fuel)
                } else {
                    match i.else_branch {
                        Some(els) => self.eval_stmt(ast, distances, els, fuel),
                        None => Ok(()),
                    }
                };
                proof {
                    lemma_preserved_trans(*old(self), mid, *self);
                }
                r
            },
            crate::ast::Statement::While(w) => {
                let mut f = fuel;
                loop
                    invariant
                        f <= fuel,
                        state_wf(*self, funs_len),
                        state_preserved(*old(self), *self),
                        self.environment == old(self).environment,
                    decreases f,
                {
                    if f == 0 {
                        return Err(RuntimeError::StackOverflow);
                    }
                    f = f - 1;
                    let ghost mid = *self;
                    let c = match self.eval_expr(ast, distances, w.condition, f) {
                        Ok(v) => v,
                        Err(er) => {
                            proof {
                                lemma_preserved_trans(*old(self), mid, *self);
                            }
                            return Err(er);
                        },
                    };
                    proof {
                        lemma_preserved_trans(*old(self), mid, *self);
                    }
                    if !crate::value::is_true(&c) {
                        return Ok(());
                    }
                    let ghost mid2 = *self;
                    match self.eval_stmt(ast, distances, w.body, f) {
                        Ok(()) => {},
                        Err(er) => {
                            proof {
                                lemma_preserved_trans(*old(self), mid2, *self);
                            }
                            return Err(er);
                        },
                    }
                    proof {
                        lemma_preserved_trans(*old(self), mid2, *self);
                    }
                }
            },
            crate::ast::Statement::Return(r) => {
                let value = match &r.value {
                    Some(v) => {
                        match self.eval_expr(ast, distances, *v, fuel) {
                            Ok(v2) => v2,
                            Err(er) => {
                                return Err(er);
                            },
                        }
                    },
                    None => Value::Nil,
                };
                Err(RuntimeError::Return(Some(value)))
            },
            crate::ast::Statement::ClassDecl(c) => self.eval_class_decl(ast, distances, c, s, fuel),
        }
    }

    /// Executes a class declaration.  The superclass expression, if any,
    /// must evaluate to a class; the class name is predefined as nil so
    /// that methods can reference the class recursively; methods close
    /// over a wrapper frame defining `super` when a superclass exists,
    /// with the method literally named `init` marked as the initializer;
    /// finally the completed class is assigned over the predeclared name.
    #[verifier::loop_isolation(false)]
    fn eval_class_decl(&mut self, ast: &Ast, distances: &Vec<Option<usize>>, c: &crate::ast::ClassDecl, s: StmtId, fuel: u64) -> (res: Result<
        (),
        RuntimeError,
    >)
        requires
            crate::ast::wf_ast(*ast),
            s < ast.stmts@.len(),
            (ast.stmts@[s as int] matches crate::ast::Statement::ClassDecl(c2) && c2 == *c),
            distances@.len() == ast.exprs@.len(),
            state_wf(*old(self), ast.funs@.len() as int),
        ensures
            state_wf(*final(self), ast.funs@.len() as int),
            state_preserved(*old(self), *final(self)),
            final(self).environment == old(self).environment,
            res matches Err(RuntimeError::Return(rv)) ==> (rv matches Some(v2)
                && value_wf(v2, *final(self), ast.funs@.len() as int)),
            fuel == 0 ==> (res matches Err(e2) && e2 is StackOverflow),
            fuel > 0 && c.superclass is None ==> res is Ok,
            fuel > 1 ==> (c.superclass matches Some(sup)
                ==> (ast.exprs@[sup as int] matches crate::ast::Expr::Variable { name: sn }
                ==> match var_lookup(*old(self), distances@, sup as int, sn.lexeme@) {
                    Some(v) => if v is Class {
                        res is Ok
                    } else {
                        (res matches Err(e3)
                            && (e3 matches RuntimeError::SuperclassMustBeAClass { token }
                                && token == sn)) && *final(self) == *old(self)
                    },
                    None => (res matches Err(e3)
                        && (e3 matches RuntimeError::UndefinedVariable { token }
                            && token == sn)) && *final(self) == *old(self),
                })),
            res is Ok ==> class_decl_ok(*old(self), *final(self), *ast, distances@, *c),
        decreases fuel,
    {
        if fuel == 0 {
            return Err(RuntimeError::StackOverflow);
        }
        let fuel = fuel - 1;
        let ghost funs_len = ast.funs@.len() as int;
        proof {
            assert(crate::ast::wf_stmt_at(*ast, s as int));
        }
        let mut superclass: Option<usize> = None;
        match c.superclass {
            Some(sup_e) => {
                let sv = match self.eval_expr(ast, distances, sup_e, fuel) {
                    Ok(v) => v,
                    Err(er) => {
                        return Err(er);
                    },
                };
                match sv {
                    Value::Class(sc) => {
                        superclass = Some(sc);
                    },
                    _ => {
                        let tok = match &ast.exprs[sup_e] {
                            crate::ast::Expr::Variable { name } => name.clone(),
                            _ => {
                                proof {
                                    assert(false);
                                }
                                c.name.clone()
                            },
                        };
                        return Err(RuntimeError::SuperclassMustBeAClass { token: tok });
                    },
                }
            },
            None => {},
        }
        let env0 = self.environment;
        let ghost st1 = *self;
        self.def_in(env0, c.name.lexeme.as_str(), Value::Nil, Ghost(funs_len));
        proof {
            lemma_preserved_trans(*old(self), st1, *self);
        }
        let method_env = match superclass {
            Some(sc) => {
                let ghost st2 = *self;
                let w = self.fresh_frame(env0, Ghost(funs_len));
                let ghost st3 = *self;
                self.def_in(w, "super", Value::Class(sc), Ghost(funs_len));
                proof {
                    lemma_preserved_trans(st2, st3, *self);
                    lemma_preserved_trans(*old(self), st2, *self);
                }
                w
            },
            None => env0,
        };
        let mut methods: Vec<(String, Function)> = Vec::new();
        let mut k: usize = 0;
        while k < c.methods.len()
            invariant
                k <= c.methods@.len(),
                methods@.len() == k,
                method_env < self.envs.frames@.len(),
                forall|j: int| 0 <= j < methods@.len()
                    ==> (#[trigger] methods@[j]).1.decl == c.methods@[j]
                        && methods@[j].1.closure == method_env
                        && methods@[j].0@ == ast.funs@[c.methods@[j] as int].name.lexeme@
                        && methods@[j].1.is_init
                            == (ast.funs@[c.methods@[j] as int].name.lexeme@ == "init"@),
            decreases c.methods@.len() - k,
        {
            let m = c.methods[k];
            let d = &ast.funs[m];
            let is_init = str_eq(d.name.lexeme.as_str(), "init");
            let mname = d.name.lexeme.clone();
            methods.push((mname, Function { decl: m, closure: method_env, is_init }));
            k = k + 1;
        }
        let name_clone = c.name.lexeme.clone();
        let ghost st4 = *self;
        let h = self.push_class(ClassData { name: name_clone, methods, superclass }, Ghost(funs_len));
        proof {
            lemma_preserved_trans(*old(self), st4, *self);
        }
        let ghost st5 = *self;
        proof {
            assert(frame_lookup(st5.envs.frames@[env0 as int].values@, c.name.lexeme@)
                == Some(Value::Nil));
            assert(spec_owner(st5.envs.frames@, env0 as int, c.name.lexeme@) == Some(env0 as int));
        }
        match self.do_assign_chain(env0, c.name.clone(), Value::Class(h), Ghost(funs_len)) {
            Ok(()) => {},
            Err(er) => {
                proof {
                    assert(false);
                    lemma_preserved_trans(*old(self), st5, *self);
                }
                return Err(er);
            },
        }
        proof {
            lemma_preserved_trans(*old(self), st5, *self);
            assert(frame_lookup(
                self.envs.frames@[env0 as int].values@,
                c.name.lexeme@,
            ) == Some(Value::Class(h)));
            assert(self.classes@[h as int].name@ == c.name.lexeme@);
        }
        Ok(())
    }

    /// Executes one top-level statement: the outermost entry point of the
    /// evaluator.
    pub fn interpret(&mut self, ast: &Ast, distances: &Vec<Option<usize>>, s: StmtId, fuel: u64) -> (res: Result<
        (),
        RuntimeError,
    >)
        requires
            crate::ast::wf_ast(*ast),
            s < ast.stmts@.len(),
            distances@.len() == ast.exprs@.len(),
            state_wf(*old(self), ast.funs@.len() as int),
        ensures
            state_wf(*final(self), ast.funs@.len() as int),
            state_preserved(*old(self), *final(self)),
            final(self).environment == old(self).environment,
            res matches Err(RuntimeError::Return(rv)) ==> (rv matches Some(v2)
                && value_wf(v2, *final(self), ast.funs@.len() as int)),
            fuel == 0 ==> (res matches Err(e2) && e2 is StackOverflow),
            match ast.stmts@[s as int] {
                crate::ast::Statement::Print(_) => res is Ok
                    ==> final(self).output@.len() > old(self).output@.len(),
                crate::ast::Statement::VarDecl(v) => {
                    &&& (res is Ok ==> frame_lookup(
                        final(self).envs.frames@[old(self).environment as int].values@,
                        v.name.lexeme@,
                    ) is Some)
                    &&& (fuel > 0 && v.initializer is None ==> res is Ok && frame_lookup(
                        final(self).envs.frames@[old(self).environment as int].values@,
                        v.name.lexeme@,
                    ) == Some(Value::Nil))
                },
                crate::ast::Statement::FunDecl(fd) => {
                    &&& (fuel > 0 ==> res is Ok)
                    &&& res is Ok ==> frame_lookup(
                        final(self).envs.frames@[old(self).environment as int].values@,
                        ast.funs@[fd as int].name.lexeme@,
                    ) == Some(
                        Value::Function(
                            (Function {
                                decl: fd,
                                closure: old(self).environment,
                                is_init: false,
                            }),
                        ),
                    )
                },
                crate::ast::Statement::Return(r) => {
                    &&& res is Err
                    &&& (fuel > 0 && r.value is None ==> (res matches Err(e3)
                        && (e3 matches RuntimeError::Return(rv2) && rv2 == Some(Value::Nil)))
                        && final(self).envs == old(self).envs
                        && final(self).classes == old(self).classes
                        && final(self).instances == old(self).instances
                        && final(self).output == old(self).output)
                },
                crate::ast::Statement::ClassDecl(c) => {
                    &&& (fuel > 1 && c.superclass is None ==> res is Ok)
                    &&& (fuel > 2 ==> (c.superclass matches Some(sup)
                        ==> (ast.exprs@[sup as int] matches crate::ast::Expr::Variable {
                            name: sn,
                        } ==> match var_lookup(*old(self), distances@, sup as int, sn.lexeme@) {
                            Some(v2) => if v2 is Class {
                                res is Ok
                            } else {
                                (res matches Err(e3)
                                    && (e3 matches RuntimeError::SuperclassMustBeAClass { token }
                                        && token == sn)) && *final(self) == *old(self)
                            },
                            None => (res matches Err(e3)
                                && (e3 matches RuntimeError::UndefinedVariable { token }
                                    && token == sn)) && *final(self) == *old(self),
                        })))
                    &&& (res is Ok ==> class_decl_ok(
                        *old(self),
                        *final(self),
                        *ast,
                        distances@,
                        c,
                    ))
                },
                _ => true,
            },
    {
        self.eval_stmt(ast, distances, s, fuel)
    }

    /// Hands the lines printed so far to the caller and clears the buffer.
    pub fn take_output(&mut self) -> (out: Vec<String>)
        ensures
            out@ == old(self).output@,
            final(self).output@.len() == 0,
            final(self).envs == old(self).envs,
            final(self).classes == old(self).classes,
            final(self).instances == old(self).instances,
            final(self).natives == old(self).natives,
            final(self).globals == old(self).globals,
            final(self).environment == old(self).environment,
            forall|fl: int| state_wf(*old(self), fl) ==> #[trigger] state_wf(*final(self), fl),
    {
        let out = self.output.clone();
        self.output = Vec::new();
        proof {
            assert(out@ =~= old(self).output@);
            assert forall|fl: int| state_wf(*old(self), fl)
                implies #[trigger] state_wf(*final(self), fl) by {
                let a = *old(self);
                let b = *self;
                assert forall|hh: int| 0 <= hh < b.envs.frames@.len()
                    implies #[trigger] frame_values_wf(b, hh, fl) by {
                    assert(frame_values_wf(a, hh, fl));
                    assert forall|k: int| 0 <= k < b.envs.frames@[hh].values@.len()
                        implies value_wf((#[trigger] b.envs.frames@[hh].values@[k]).1, b, fl) by {
                        assert(value_wf(a.envs.frames@[hh].values@[k].1, a, fl));
                    }
                }
                assert forall|cc: int| 0 <= cc < b.classes@.len() implies #[trigger] class_wf(b, cc, fl) by {
                    assert(class_wf(a, cc, fl));
                }
                assert forall|ii: int| 0 <= ii < b.instances@.len()
                    implies #[trigger] instance_wf(b, ii, fl) by {
                    assert(instance_wf(a, ii, fl));
                }
            }
        }
        out
    }

    /// Appends one rendered line to the output.
    fn print_line(&mut self, line: String, Ghost(funs_len): Ghost<int>)
        requires
            state_wf(*old(self), funs_len),
        ensures
            state_wf(*final(self), funs_len),
            state_preserved(*old(self), *final(self)),
            final(self).environment == old(self).environment,
            final(self).output@ == old(self).output@.push(line),
            final(self).envs == old(self).envs,
            final(self).classes == old(self).classes,
            final(self).instances == old(self).instances,
    {
        self.output.push(line);
        proof {
            let a = *old(self);
            let b = *self;
            assert forall|hh: int| 0 <= hh < b.envs.frames@.len()
                implies #[trigger] frame_values_wf(b, hh, funs_len) by {
                assert(frame_values_wf(a, hh, funs_len));
                assert forall|k: int| 0 <= k < b.envs.frames@[hh].values@.len()
                    implies value_wf((#[trigger] b.envs.frames@[hh].values@[k]).1, b, funs_len) by {
                    assert(value_wf(a.envs.frames@[hh].values@[k].1, a, funs_len));
                }
            }
            assert forall|c: int| 0 <= c < b.classes@.len() implies #[trigger] class_wf(b, c, funs_len) by {
                assert(class_wf(a, c, funs_len));
            }
            assert forall|i: int| 0 <= i < b.instances@.len()
                implies #[trigger] instance_wf(b, i, funs_len) by {
                assert(instance_wf(a, i, funs_len));
            }
        }
    }
}

} // verus!
