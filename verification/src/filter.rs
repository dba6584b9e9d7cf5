//! The filter representation, before and after name resolution.
//!
//! Before resolution a filter's calls are symbolic `(name, operands)`
//! pairs; resolution turns them into direct references into an arena of
//! resolved definition bodies, so that recursive and mutually recursive
//! definitions share structure instead of being copied per call site.

use vstd::prelude::*;
use crate::val::Val;
use crate::functions::Builtin;
use std::rc::Rc;

verus! {

/// A filter as the parser hands it over: identity, a literal value, or a
/// call of a named function with sub-filter operands (the call's arity is
/// the number of operands).
#[derive(Debug)]
pub enum PreFilter {
    Id,
    Lit(Val),
    Call(String, Vec<PreFilter>),
}

/// A resolved filter: every call site holds the arena index of its
/// resolved definition body, and a formal parameter occurrence holds the
/// position of the operand it stands for.
#[derive(Debug)]
pub enum Closed {
    Id,
    Lit(Val),
    Builtin(Builtin<Rc<Closed>>),
    Call(usize, Vec<Rc<Closed>>),
    Arg(usize),
}

/// A filter operand captured together with the bindings it was written
/// under, so that its own formal parameter occurrences keep their meaning.
pub struct Closure {
    pub node: Rc<Closed>,
    pub env: Rc<Env>,
}

/// The bindings of the formal parameters of the definition being run.
pub struct Env(pub Vec<Closure>);

/// The model of a captured operand.
pub struct ClosureS {
    pub node: Closed,
    pub env: Seq<ClosureS>,
}

/// The model of a captured operand: its node and the models of its
/// bindings.
pub open spec fn closure_view(c: Closure) -> ClosureS
    decreases c, 0int, 0int,
{
    ClosureS { node: *c.node, env: env_upto(*c.env, (*c.env).0.len() as int) }
}

/// The models of the first `n` bindings of an environment.
pub open spec fn env_upto(e: Env, n: int) -> Seq<ClosureS>
    decreases e, 1int, n,
{
    if n <= 0 || n > e.0.len() {
        Seq::empty()
    } else {
        env_upto(e, n - 1).push(closure_view(e.0[n - 1]))
    }
}

/// The model of an environment.
pub open spec fn env_view(e: Env) -> Seq<ClosureS> {
    env_upto(e, e.0.len() as int)
}

pub proof fn lemma_env_upto(e: Env, n: int)
    requires
        0 <= n <= e.0.len(),
    ensures
        env_upto(e, n) =~= e.0@.take(n).map_values(|c: Closure| closure_view(c)),
    decreases n,
{
    if n > 0 {
        lemma_env_upto(e, n - 1);
        assert(e.0@.take(n).drop_last() =~= e.0@.take(n - 1));
        assert(e.0@.take(n).map_values(|c: Closure| closure_view(c)).drop_last() =~= e.0@.take(
            n - 1,
        ).map_values(|c: Closure| closure_view(c)));
    }
}

/// The model of an environment is the elementwise model of its bindings.
pub proof fn lemma_env_view(e: Env)
    ensures
        env_view(e) =~= e.0@.map_values(|c: Closure| closure_view(c)),
        env_view(e).len() == e.0@.len(),
{
    lemma_env_upto(e, e.0.len() as int);
    assert(e.0@.take(e.0.len() as int) =~= e.0@);
}

/// A shared handle to the same node.
/// Relies on `Rc::clone`: the returned handle refers to the very value the
/// argument refers to.
#[verifier::external_body]
pub fn rc_dup<T>(v: &Rc<T>) -> (r: Rc<T>)
    ensures
        r == *v,
{
    Rc::clone(v)
}

/// A fully resolved program: the arena of resolved definition bodies and
/// the top-level filter to run. The term and every arena body only ever
/// reference definitions through arena indices, so no unbound name can be
/// encountered during evaluation.
#[derive(Debug)]
pub struct ClosedFilter {
    pub arena: Vec<Rc<Closed>>,
    pub term: Rc<Closed>,
}

/// The model of the arena: the resolved body of each definition.
pub open spec fn arena_view(a: Vec<Rc<Closed>>) -> Seq<Closed> {
    a@.map_values(|r: Rc<Closed>| *r)
}

} // verus!
