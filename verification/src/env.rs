//! The chained environment model: a frame is a mapping from names to values
//! plus an optional enclosing frame.
//!
//! Frames are multiply aliased — closures and active calls hold live
//! references into the same frame — so a frame is never copied, only
//! referred to by a handle into an arena of frames.  A frame's enclosing
//! handle is always smaller than its own, which both rules out cycles and
//! gives every chain walk an obvious bound.
//!
//! Within one frame, bindings are kept as an association list read from the
//! newest entry backwards; `frame_lookup` is the authoritative meaning of a
//! frame's contents.

use crate::token::str_eq;
use crate::token::Token;
use crate::value::RuntimeError;
use crate::value::Value;
use vstd::prelude::*;

verus! {

/// One lexical scope: name-to-value bindings and the enclosing frame.
#[derive(Debug)]
pub struct Environment {
    pub values: Vec<(String, Value)>,
    pub enclosing: Option<usize>,
}

/// The arena of frames.  Handle 0, once allocated, is the global frame.
#[derive(Debug)]
pub struct EnvStore {
    pub frames: Vec<Environment>,
}

/// The value bound to `name` in one frame: the newest binding wins.
pub open spec fn frame_lookup(s: Seq<(String, Value)>, name: Seq<char>) -> Option<Value>
    decreases s.len(),
{
    if s.len() == 0 {
        None
    } else if s.last().0@ == name {
        Some(s.last().1)
    } else {
        frame_lookup(s.drop_last(), name)
    }
}

/// Every frame's enclosing handle is smaller than its own handle: chains
/// are acyclic and always lead towards the global frame.
pub open spec fn frames_wf(frames: Seq<Environment>) -> bool {
    forall|h: int| 0 <= h < frames.len() ==> match (#[trigger] frames[h]).enclosing {
        Some(e) => (e as int) < h,
        None => true,
    }
}

/// The binding of `name` exactly `height` enclosing hops above frame `e`.
pub open spec fn spec_get_at(frames: Seq<Environment>, e: int, name: Seq<char>, height: nat) -> Option<Value>
    decreases height,
{
    if !(0 <= e < frames.len()) {
        None
    } else if height == 0 {
        frame_lookup(frames[e].values@, name)
    } else {
        match frames[e].enclosing {
            Some(p) => spec_get_at(frames, p as int, name, (height - 1) as nat),
            None => None,
        }
    }
}

/// The handle of the innermost frame at or above `e` that binds `name`.
pub open spec fn spec_owner(frames: Seq<Environment>, e: int, name: Seq<char>) -> Option<int>
    decreases e,
{
    if !(0 <= e < frames.len()) {
        None
    } else if frame_lookup(frames[e].values@, name) is Some {
        Some(e)
    } else {
        match frames[e].enclosing {
            Some(p) => if (p as int) < e {
                spec_owner(frames, p as int, name)
            } else {
                None
            },
            None => None,
        }
    }
}

/// The binding of `name` found by walking the chain outward from `e`.
pub open spec fn spec_get(frames: Seq<Environment>, e: int, name: Seq<char>) -> Option<Value> {
    match spec_owner(frames, e, name) {
        Some(o) => frame_lookup(frames[o].values@, name),
        None => None,
    }
}

/// The frame exactly `height` enclosing hops above `e`, if the chain
/// reaches that far.
pub open spec fn frame_at_height(frames: Seq<Environment>, e: int, height: nat) -> Option<int>
    decreases height,
{
    if !(0 <= e < frames.len()) {
        None
    } else if height == 0 {
        Some(e)
    } else {
        match frames[e].enclosing {
            Some(p) => frame_at_height(frames, p as int, (height - 1) as nat),
            None => None,
        }
    }
}

/// Appending a binding makes the new name visible and hides nothing else.
pub proof fn lemma_frame_lookup_push(s: Seq<(String, Value)>, elem: (String, Value), name: Seq<char>)
    ensures
        frame_lookup(s.push(elem), name) == if elem.0@ == name {
            Some(elem.1)
        } else {
            frame_lookup(s, name)
        },
{
    assert(s.push(elem).last() == elem);
    assert(s.push(elem).drop_last() =~= s);
}

/// Overwriting the newest binding of `name` in place changes that binding
/// and nothing else.
proof fn lemma_frame_lookup_update(s: Seq<(String, Value)>, i: int, value: Value, name: Seq<char>)
    requires
        0 <= i < s.len(),
        s[i].0@ == name,
        forall|j: int| i < j < s.len() ==> (#[trigger] s[j]).0@ != name,
    ensures
        frame_lookup(s.update(i, (s[i].0, value)), name) == Some(value),
        forall|o: Seq<char>| o != name ==> frame_lookup(s.update(i, (s[i].0, value)), o)
            == frame_lookup(s, o),
    decreases s.len(),
{
    let t = s.update(i, (s[i].0, value));
    if i == s.len() - 1 {
        assert(t.last() == (s[i].0, value));
        assert(t.drop_last() =~= s.drop_last());
        assert forall|o: Seq<char>| o != name implies frame_lookup(t, o) == frame_lookup(s, o) by {
            assert(s.last().0@ == name);
        }
    } else {
        assert(t.last() == s.last());
        assert(t.drop_last() =~= s.drop_last().update(i, (s[i].0, value)));
        lemma_frame_lookup_update(s.drop_last(), i, value, name);
        assert forall|o: Seq<char>| o != name implies frame_lookup(t, o) == frame_lookup(s, o) by {
            if t.last().0@ != o {
                assert(frame_lookup(t, o) == frame_lookup(t.drop_last(), o));
                assert(frame_lookup(s, o) == frame_lookup(s.drop_last(), o));
            }
        }
    }
}

/// The value bound to `name` in one association list, newest entry first.
pub fn assoc_find(list: &Vec<(String, Value)>, name: &str) -> (r: Option<Value>)
    ensures
        r == frame_lookup(list@, name@),
{
    let mut i = list.len();
    proof {
        assert(list@.take(list@.len() as int) =~= list@);
    }
    while i > 0
        invariant
            i <= list@.len(),
            frame_lookup(list@, name@) == frame_lookup(list@.take(i as int), name@),
        decreases i,
    {
        i = i - 1;
        proof {
            assert(list@.take(i + 1).last() == list@[i as int]);
            assert(list@.take(i + 1).drop_last() =~= list@.take(i as int));
        }
        if str_eq(list[i].0.as_str(), name) {
            return Some(list[i].1.clone());
        }
    }
    None
}

impl Environment {
    /// An empty frame with no enclosing scope.
    pub fn new() -> (env: Environment)
        ensures
            env.values@.len() == 0,
            env.enclosing is None,
    {
        Environment { values: Vec::new(), enclosing: None }
    }

    /// The value bound to `name` in this frame alone.
    pub fn lookup(&self, name: &str) -> (r: Option<Value>)
        ensures
            r == frame_lookup(self.values@, name@),
    {
        assoc_find(&self.values, name)
    }

    /// Binds `name` to `value` in this frame, inserting or overwriting
    /// unconditionally.
    pub fn define(&mut self, name: &str, value: Value)
        ensures
            final(self).enclosing == old(self).enclosing,
            final(self).values@.len() == old(self).values@.len() + 1,
            forall|k: int| 0 <= k < old(self).values@.len()
                ==> final(self).values@[k] == old(self).values@[k],
            final(self).values@.last().0@ == name@,
            final(self).values@.last().1 == value,
            frame_lookup(final(self).values@, name@) == Some(value),
            forall|o: Seq<char>| o != name@ ==> frame_lookup(final(self).values@, o)
                == frame_lookup(old(self).values@, o),
    {
        let owned: String = name.to_owned();
        self.values.push((owned, value));
        proof {
            assert(self.values@ =~= old(self).values@.push(self.values@.last()));
            lemma_frame_lookup_push(old(self).values@, self.values@.last(), name@);
            assert forall|o: Seq<char>| o != name@ implies frame_lookup(self.values@, o)
                == frame_lookup(old(self).values@, o) by {
                lemma_frame_lookup_push(old(self).values@, self.values@.last(), o);
            }
        }
    }

    /// Overwrites the binding of `name` in this frame if one exists;
    /// reports whether it did.
    pub fn assign_local(&mut self, name: &str, value: Value) -> (found: bool)
        ensures
            found == (frame_lookup(old(self).values@, name@) is Some),
            final(self).enclosing == old(self).enclosing,
            final(self).values@.len() == old(self).values@.len(),
            forall|k: int| 0 <= k < old(self).values@.len()
                ==> (#[trigger] final(self).values@[k]).0 == old(self).values@[k].0,
            forall|k: int| 0 <= k < old(self).values@.len()
                ==> (#[trigger] final(self).values@[k]).1 == old(self).values@[k].1
                    || final(self).values@[k].1 == value,
            !found ==> *final(self) == *old(self),
            found ==> frame_lookup(final(self).values@, name@) == Some(value),
            forall|o: Seq<char>| o != name@ ==> frame_lookup(final(self).values@, o)
                == frame_lookup(old(self).values@, o),
    {
        let mut i = self.values.len();
        proof {
            assert(self.values@.take(self.values@.len() as int) =~= self.values@);
        }
        while i > 0
            invariant
                i <= self.values@.len(),
                *self == *old(self),
                frame_lookup(self.values@, name@) == frame_lookup(self.values@.take(i as int), name@),
                forall|j: int| i <= j < self.values@.len() ==> (#[trigger] self.values@[j]).0@ != name@,
            decreases i,
        {
            i = i - 1;
            proof {
                assert(self.values@.take(i + 1).last() == self.values@[i as int]);
                assert(self.values@.take(i + 1).drop_last() =~= self.values@.take(i as int));
            }
            if str_eq(self.values[i].0.as_str(), name) {
                let key = self.values[i].0.clone();
                self.values[i] = (key, value);
                proof {
                    assert(self.values@ =~= old(self).values@.update(
                        i as int,
                        (old(self).values@[i as int].0, value),
                    ));
                    lemma_frame_lookup_update(old(self).values@, i as int, value, name@);
                    assert forall|o: Seq<char>| o != name@ implies frame_lookup(self.values@, o)
                        == frame_lookup(old(self).values@, o) by {
                        lemma_frame_lookup_update(old(self).values@, i as int, value, name@);
                    }
                }
                return true;
            }
        }
        proof {
            assert(self.values@.take(0) =~= Seq::<(String, Value)>::empty());
        }
        false
    }
}

impl EnvStore {
    /// An arena with no frames yet.
    pub fn new() -> (s: EnvStore)
        ensures
            s.frames@.len() == 0,
            frames_wf(s.frames@),
    {
        EnvStore { frames: Vec::new() }
    }

    /// Allocates a fresh frame with no enclosing scope; returns its handle.
    pub fn new_frame(&mut self) -> (h: usize)
        requires
            frames_wf(old(self).frames@),
        ensures
            frames_wf(final(self).frames@),
            h == old(self).frames@.len(),
            final(self).frames@.len() == old(self).frames@.len() + 1,
            forall|k: int| 0 <= k < old(self).frames@.len()
                ==> final(self).frames@[k] == old(self).frames@[k],
            final(self).frames@[h as int].values@.len() == 0,
            final(self).frames@[h as int].enclosing is None,
    {
        let h = self.frames.len();
        self.frames.push(Environment::new());
        h
    }

    /// Allocates a fresh frame enclosed by the frame `e`; returns its
    /// handle.
    pub fn new_frame_with_enclosing(&mut self, e: usize) -> (h: usize)
        requires
            frames_wf(old(self).frames@),
            e < old(self).frames@.len(),
        ensures
            frames_wf(final(self).frames@),
            h == old(self).frames@.len(),
            final(self).frames@.len() == old(self).frames@.len() + 1,
            forall|k: int| 0 <= k < old(self).frames@.len()
                ==> final(self).frames@[k] == old(self).frames@[k],
            final(self).frames@[h as int].values@.len() == 0,
            final(self).frames@[h as int].enclosing == Some(e),
    {
        let h = self.frames.len();
        let mut env = Environment::new();
        env.enclosing = Some(e);
        self.frames.push(env);
        h
    }

    /// The enclosing frame of `env`.
    pub fn enclosing(&self, env: usize) -> (r: Option<usize>)
        requires
            env < self.frames@.len(),
        ensures
            r == self.frames@[env as int].enclosing,
    {
        self.frames[env].enclosing
    }

    /// Binds `name` to `value` in the frame `env` itself, inserting or
    /// overwriting unconditionally.
    pub fn define(&mut self, env: usize, name: &str, value: Value)
        requires
            frames_wf(old(self).frames@),
            env < old(self).frames@.len(),
        ensures
            frames_wf(final(self).frames@),
            final(self).frames@.len() == old(self).frames@.len(),
            forall|k: int| 0 <= k < old(self).frames@.len() && k != env
                ==> final(self).frames@[k] == old(self).frames@[k],
            final(self).frames@[env as int].enclosing == old(self).frames@[env as int].enclosing,
            final(self).frames@[env as int].values@.len()
                == old(self).frames@[env as int].values@.len() + 1,
            forall|k: int| 0 <= k < old(self).frames@[env as int].values@.len()
                ==> final(self).frames@[env as int].values@[k]
                    == old(self).frames@[env as int].values@[k],
            final(self).frames@[env as int].values@.last().0@ == name@,
            final(self).frames@[env as int].values@.last().1 == value,
            frame_lookup(final(self).frames@[env as int].values@, name@) == Some(value),
            forall|o: Seq<char>| o != name@
                ==> frame_lookup(final(self).frames@[env as int].values@, o)
                    == frame_lookup(old(self).frames@[env as int].values@, o),
    {
        self.frames[env].define(name, value);
        proof {
            assert(final(self).frames@ =~= old(self).frames@.update(
                env as int,
                final(self).frames@[env as int],
            ));
        }
    }

    /// The binding of `name` exactly `height` hops above `env`.
    pub fn get_at(&self, env: usize, name: &str, height: usize) -> (r: Option<Value>)
        requires
            frames_wf(self.frames@),
            env < self.frames@.len(),
        ensures
            r == spec_get_at(self.frames@, env as int, name@, height as nat),
    {
        let mut cur = env;
        let mut h = height;
        while h > 0
            invariant
                frames_wf(self.frames@),
                cur < self.frames@.len(),
                spec_get_at(self.frames@, env as int, name@, height as nat)
                    == spec_get_at(self.frames@, cur as int, name@, h as nat),
            decreases h,
        {
            match self.frames[cur].enclosing {
                Some(p) => {
                    cur = p;
                    h = h - 1;
                },
                None => {
                    return None;
                },
            }
        }
        self.frames[cur].lookup(name)
    }

    /// The binding of `name` found by walking the chain outward from `env`.
    pub fn get(&self, env: usize, name: &str) -> (r: Option<Value>)
        requires
            frames_wf(self.frames@),
            env < self.frames@.len(),
        ensures
            r == spec_get(self.frames@, env as int, name@),
    {
        let mut cur = env;
        loop
            invariant
                frames_wf(self.frames@),
                cur < self.frames@.len(),
                spec_owner(self.frames@, env as int, name@)
                    == spec_owner(self.frames@, cur as int, name@),
            decreases cur,
        {
            let found = self.frames[cur].lookup(name);
            if found.is_some() {
                return found;
            }
            match self.frames[cur].enclosing {
                Some(p) => {
                    cur = p;
                },
                None => {
                    return None;
                },
            }
        }
    }

    /// Walks outward from `env` to the innermost frame that binds `name`
    /// and overwrites the binding there; an unbound name is an
    /// `UndefinedVariable` error.  Used for assignments that the resolver
    /// left unresolved, with `env` the global frame.
    pub fn assign(&mut self, env: usize, name: Token, value: Value) -> (r: Result<(), RuntimeError>)
        requires
            frames_wf(old(self).frames@),
            env < old(self).frames@.len(),
        ensures
            frames_wf(final(self).frames@),
            final(self).frames@.len() == old(self).frames@.len(),
            forall|k: int| 0 <= k < old(self).frames@.len()
                ==> (#[trigger] final(self).frames@[k]).enclosing
                    == old(self).frames@[k].enclosing,
            match spec_owner(old(self).frames@, env as int, name.lexeme@) {
                Some(o) => {
                    &&& r is Ok
                    &&& forall|k: int| 0 <= k < old(self).frames@.len() && k != o
                        ==> final(self).frames@[k] == old(self).frames@[k]
                    &&& final(self).frames@[o].values@.len() == old(self).frames@[o].values@.len()
                    &&& forall|j: int| 0 <= j < old(self).frames@[o].values@.len()
                        ==> (#[trigger] final(self).frames@[o].values@[j]).1
                                == old(self).frames@[o].values@[j].1
                            || final(self).frames@[o].values@[j].1 == value
                    &&& frame_lookup(final(self).frames@[o].values@, name.lexeme@) == Some(value)
                    &&& forall|other: Seq<char>| other != name.lexeme@
                        ==> frame_lookup(final(self).frames@[o].values@, other)
                            == frame_lookup(old(self).frames@[o].values@, other)
                },
                None => {
                    &&& r matches Err(RuntimeError::UndefinedVariable { token }) && token == name
                    &&& final(self).frames@ == old(self).frames@
                },
            },
    {
        let mut cur = env;
        loop
            invariant
                frames_wf(self.frames@),
                cur < self.frames@.len(),
                self.frames@ == old(self).frames@,
                spec_owner(self.frames@, env as int, name.lexeme@)
                    == spec_owner(self.frames@, cur as int, name.lexeme@),
            decreases cur,
        {
            let ghost prev = *self;
            let next = self.frames[cur].enclosing;
            let found = self.frames[cur].assign_local(name.lexeme.as_str(), value.clone());
            proof {
                assert(self.frames@ =~= prev.frames@.update(cur as int, self.frames@[cur as int]));
            }
            if found {
                return Ok(());
            }
            proof {
                assert(self.frames@ =~= prev.frames@);
            }
            match next {
                Some(p) => {
                    cur = p;
                },
                None => {
                    return Err(RuntimeError::UndefinedVariable { token: name });
                },
            }
        }
    }

    /// Overwrites or inserts the binding of `name` in the frame exactly
    /// `height` hops above `env`; a chain shorter than `height` leaves the
    /// store untouched.  An existing binding is mutated in place, so
    /// repeated assignment never grows the frame.  Used for assignments
    /// with a resolved distance, which the resolver guarantees to land on
    /// the declaring frame.
    pub fn assign_at(&mut self, env: usize, name: Token, value: Value, height: usize)
        requires
            frames_wf(old(self).frames@),
            env < old(self).frames@.len(),
        ensures
            frames_wf(final(self).frames@),
            final(self).frames@.len() == old(self).frames@.len(),
            forall|k: int| 0 <= k < old(self).frames@.len()
                ==> (#[trigger] final(self).frames@[k]).enclosing
                    == old(self).frames@[k].enclosing,
            match frame_at_height(old(self).frames@, env as int, height as nat) {
                Some(t) => {
                    &&& forall|k: int| 0 <= k < old(self).frames@.len() && k != t
                        ==> final(self).frames@[k] == old(self).frames@[k]
                    &&& final(self).frames@[t].values@.len()
                        <= old(self).frames@[t].values@.len() + 1
                    &&& forall|j: int| 0 <= j < old(self).frames@[t].values@.len()
                        ==> (#[trigger] final(self).frames@[t].values@[j]).0
                            == old(self).frames@[t].values@[j].0
                    &&& forall|j: int| 0 <= j < old(self).frames@[t].values@.len()
                        ==> (#[trigger] final(self).frames@[t].values@[j]).1
                                == old(self).frames@[t].values@[j].1
                            || final(self).frames@[t].values@[j].1 == value
                    &&& (final(self).frames@[t].values@.len()
                        == old(self).frames@[t].values@.len() + 1
                        ==> final(self).frames@[t].values@.last().1 == value)
                    &&& frame_lookup(final(self).frames@[t].values@, name.lexeme@) == Some(value)
                    &&& forall|other: Seq<char>| other != name.lexeme@
                        ==> frame_lookup(final(self).frames@[t].values@, other)
                            == frame_lookup(old(self).frames@[t].values@, other)
                },
                None => final(self).frames@ == old(self).frames@,
            },
    {
        let mut cur = env;
        let mut h = height;
        while h > 0
            invariant
                frames_wf(self.frames@),
                cur < self.frames@.len(),
                self.frames@ == old(self).frames@,
                frame_at_height(self.frames@, env as int, height as nat)
                    == frame_at_height(self.frames@, cur as int, h as nat),
            decreases h,
        {
            match self.frames[cur].enclosing {
                Some(p) => {
                    cur = p;
                    h = h - 1;
                },
                None => {
                    return;
                },
            }
        }
        let ghost prev = *self;
        let found = self.frames[cur].assign_local(name.lexeme.as_str(), value.clone());
        proof {
            assert(self.frames@ =~= prev.frames@.update(cur as int, self.frames@[cur as int]));
        }
        if !found {
            let ghost prev2 = *self;
            proof {
                assert(self.frames@ =~= prev.frames@);
            }
            self.frames[cur].define(name.lexeme.as_str(), value);
            proof {
                assert(self.frames@ =~= prev2.frames@.update(cur as int, self.frames@[cur as int]));
            }
        }
    }
}

} // verus!
