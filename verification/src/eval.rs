//! The evaluation engine.
//!
//! Evaluation of a resolved filter against an input value is specified by
//! the mathematical function [`eval`] and computed by
//! [`ClosedFilter::run`], which is proved to return exactly what `eval`
//! says. Evaluation is demand-bounded: the `want` parameter says how many
//! stream items the consumer asks for, so a bounded request against an
//! unbounded generator (`repeat`, a recursive definition) still returns.
//! The `fuel` parameter makes evaluation total: `None` means the
//! computation did not finish within the given fuel, never a wrong
//! answer; any result that comes back is the exact output stream.
//!
//! Errors are items in the output stream; a consumer stops reading a
//! stream at an error, and the contracts of the generator builtins say
//! which parts of a stream survive an error in an operand.

use vstd::prelude::*;
use crate::val::{Val, ValR, ValS, ValRS, Error, Tag, val_view, truthy, tag_of, lift_valr, stream_view, pairs_view, lemma_val_view_obj};
use crate::functions::{New, Ref, Builtin, new_of};
use crate::filter::{Closed, Closure, ClosureS, Env, ClosedFilter, closure_view, env_view, arena_view, rc_dup, lemma_env_view};
use std::rc::Rc;

verus! {

/// A demand for every item the filter will ever produce, as far as fuel
/// reaches.
pub open spec fn full_demand() -> nat {
    usize::MAX as nat
}

/// Coercion of a count value to a non-negative machine integer.
pub open spec fn as_count(v: ValS) -> Result<nat, Error> {
    match v {
        ValS::Num(n) => if 0 <= n <= usize::MAX {
            Ok(n as nat)
        } else {
            Err(Error::Cast(Tag::Num))
        },
        _ => Err(Error::Cast(tag_of(v))),
    }
}

/// `select`'s output: the input re-emitted once for every truthy result
/// of the predicate stream; a predicate error becomes an item, and the
/// results already emitted stay.
pub open spec fn select_items(xs: Seq<ValRS>, v: ValS, want: nat) -> Seq<ValRS>
    decreases xs.len(),
{
    if want == 0 || xs.len() == 0 {
        Seq::empty()
    } else {
        match xs.first() {
            Ok(t) => if truthy(t) {
                seq![Ok(v)] + select_items(xs.drop_first(), v, (want - 1) as nat)
            } else {
                select_items(xs.drop_first(), v, want)
            },
            Err(e) => seq![Err(e)] + select_items(xs.drop_first(), v, (want - 1) as nat),
        }
    }
}

/// `last`'s output: the first error of the stream if there is one, else
/// the final value, else nothing.
pub open spec fn last_items(xs: Seq<ValRS>) -> Seq<ValRS>
    decreases xs.len(),
{
    if xs.len() == 0 {
        Seq::empty()
    } else {
        match xs.first() {
            Err(e) => seq![Err(e)],
            Ok(x) => if xs.len() == 1 {
                seq![Ok(x)]
            } else {
                last_items(xs.drop_first())
            },
        }
    }
}

/// A stream collected into its values, stopped by its first error.
pub open spec fn collect_vals(xs: Seq<ValRS>) -> Result<Seq<ValS>, Error>
    decreases xs.len(),
{
    if xs.len() == 0 {
        Ok(Seq::empty())
    } else {
        match xs.first() {
            Err(e) => Err(e),
            Ok(x) => match collect_vals(xs.drop_first()) {
                Ok(r) => Ok(seq![x] + r),
                Err(e) => Err(e),
            },
        }
    }
}

/// The synthetic object handed to a fold's update filter.
pub open spec fn fold_obj(acc: ValS, x: ValS) -> ValS {
    ValS::Obj(seq![("acc"@, acc), ("x"@, x)])
}

/// At most `want` items of a stream.
pub open spec fn take_want(s: Seq<ValRS>, want: nat) -> Seq<ValRS> {
    if want < s.len() {
        s.take(want as int)
    } else {
        s
    }
}

/// The operand filters of a call, each captured with the bindings it was
/// written under.
pub open spec fn call_env(env: Seq<ClosureS>, ops: Seq<Rc<Closed>>) -> Seq<ClosureS> {
    ops.map_values(|op: Rc<Closed>| (ClosureS { node: *op, env: env }))
}

/// What evaluating filter `f` against input `v` yields: the first `want`
/// items of its output stream, or `None` when `fuel` runs out first.
pub open spec fn eval(arena: Seq<Closed>, env: Seq<ClosureS>, f: Closed, v: ValS, want: nat, fuel: nat) -> Option<Seq<ValRS>>
    decreases fuel, 0int, 0int,
{
    if fuel == 0 {
        None
    } else if want == 0 {
        Some(Seq::empty())
    } else {
        let fl = (fuel - 1) as nat;
        match f {
            Closed::Id => Some(seq![Ok(v)]),
            Closed::Lit(l) => Some(seq![Ok(val_view(l))]),
            Closed::Builtin(b) => match b {
                Builtin::New(op) => Some(seq![new_of(op, v)]),
                Builtin::Ref(r) => eval_ref(arena, env, r, v, want, fl),
            },
            Closed::Call(i, ops) => if i < arena.len() {
                eval(arena, call_env(env, ops@), arena[i as int], v, want, fl)
            } else {
                Some(Seq::empty())
            },
            Closed::Arg(i) => if i < env.len() {
                eval(arena, env[i as int].env, env[i as int].node, v, want, fl)
            } else {
                Some(Seq::empty())
            },
        }
    }
}

/// What a generator builtin yields, with `want` items asked for.
pub open spec fn eval_ref(arena: Seq<Closed>, env: Seq<ClosureS>, r: Ref<Rc<Closed>>, v: ValS, want: nat, fuel: nat) -> Option<Seq<ValRS>>
    decreases fuel, 4int, 0int,
{
    match r {
        Ref::Empty => Some(Seq::empty()),
        Ref::Repeat(g) => match eval(arena, env, *g, v, full_demand(), fuel) {
            None => None,
            Some(xs) => if xs.len() == 0 {
                Some(Seq::empty())
            } else {
                repeat_items(xs, 0, want, fuel)
            },
        },
        Ref::First(g) => eval(arena, env, *g, v, 1, fuel),
        Ref::Last(g) => match eval(arena, env, *g, v, full_demand(), fuel) {
            None => None,
            Some(xs) => Some(last_items(xs)),
        },
        Ref::Select(g) => match eval(arena, env, *g, v, full_demand(), fuel) {
            None => None,
            Some(xs) => Some(select_items(xs, v, want)),
        },
        Ref::Limit(n, g) => match eval(arena, env, *n, v, full_demand(), fuel) {
            None => None,
            Some(cs) => limit_items(arena, env, cs, *g, v, want, fuel),
        },
        Ref::Recurse(g) => eval_recurse(arena, env, *g, v, want, fuel),
        Ref::Fold(src, init, upd) => match eval(arena, env, *src, v, full_demand(), fuel) {
            None => None,
            Some(xs) => match eval(arena, env, *init, v, full_demand(), fuel) {
                None => None,
                Some(is) => match collect_vals(is) {
                    Err(e) => Some(seq![Err(e)]),
                    Ok(accs) => match fold_items(arena, env, *upd, accs, xs, fuel) {
                        None => None,
                        Some(Err(e)) => Some(seq![Err(e)]),
                        Some(Ok(accs2)) => Some(take_want(accs2.map_values(|a: ValS| Ok(a)), want)),
                    },
                },
            },
        },
    }
}

/// A collected stream cycled item by item, one unit of fuel each.
pub open spec fn repeat_items(xs: Seq<ValRS>, idx: int, want: nat, fuel: nat) -> Option<Seq<ValRS>>
    decreases fuel, 1int, 0int,
{
    if want == 0 || xs.len() == 0 {
        Some(Seq::empty())
    } else if fuel == 0 {
        None
    } else {
        let next = if idx + 1 < xs.len() {
            idx + 1
        } else {
            0
        };
        match repeat_items(xs, next, (want - 1) as nat, (fuel - 1) as nat) {
            None => None,
            Some(rest) => Some(seq![xs[idx]] + rest),
        }
    }
}

/// `limit`'s output: every count in the count stream triggers one bounded
/// run of the filter; a bad count becomes an item and the later counts
/// still run.
pub open spec fn limit_items(arena: Seq<Closed>, env: Seq<ClosureS>, cs: Seq<ValRS>, g: Closed, v: ValS, want: nat, fuel: nat) -> Option<Seq<ValRS>>
    decreases fuel, 1int, cs.len(),
{
    if want == 0 || cs.len() == 0 {
        Some(Seq::empty())
    } else {
        match cs.first() {
            Err(e) => match limit_items(arena, env, cs.drop_first(), g, v, (want - 1) as nat, fuel) {
                None => None,
                Some(rest) => Some(seq![Err(e)] + rest),
            },
            Ok(c) => match as_count(c) {
                Err(e) => match limit_items(arena, env, cs.drop_first(), g, v, (want - 1) as nat, fuel) {
                    None => None,
                    Some(rest) => Some(seq![Err(e)] + rest),
                },
                Ok(k) => {
                    let w = if k < want {
                        k
                    } else {
                        want
                    };
                    match eval(arena, env, g, v, w, fuel) {
                        None => None,
                        Some(seg) => {
                            let left = if seg.len() < want {
                                (want - seg.len()) as nat
                            } else {
                                0
                            };
                            match limit_items(arena, env, cs.drop_first(), g, v, left, fuel) {
                                None => None,
                                Some(rest) => Some(seg + rest),
                            }
                        },
                    }
                },
            },
        }
    }
}

/// `recurse`'s output: the input first, then, for every result of the
/// filter on the input, the recursion on that result, depth first.
pub open spec fn eval_recurse(arena: Seq<Closed>, env: Seq<ClosureS>, g: Closed, v: ValS, want: nat, fuel: nat) -> Option<Seq<ValRS>>
    decreases fuel, 2int, 0int,
{
    if want == 0 {
        Some(Seq::empty())
    } else if fuel == 0 {
        None
    } else {
        let fl = (fuel - 1) as nat;
        match eval(arena, env, g, v, full_demand(), fl) {
            None => None,
            Some(xs) => match recurse_items(arena, env, g, xs, (want - 1) as nat, fl) {
                None => None,
                Some(rest) => Some(seq![Ok(v)] + rest),
            },
        }
    }
}

/// The recursion on each result of one expansion step; an error ends
/// that expansion's stream.
pub open spec fn recurse_items(arena: Seq<Closed>, env: Seq<ClosureS>, g: Closed, xs: Seq<ValRS>, want: nat, fuel: nat) -> Option<Seq<ValRS>>
    decreases fuel, 3int, xs.len(),
{
    if want == 0 || xs.len() == 0 {
        Some(Seq::empty())
    } else {
        match xs.first() {
            Err(e) => Some(seq![Err(e)]),
            Ok(w) => match eval_recurse(arena, env, g, w, want, fuel) {
                None => None,
                Some(ys) => {
                    let left = if ys.len() < want {
                        (want - ys.len()) as nat
                    } else {
                        0
                    };
                    match recurse_items(arena, env, g, xs.drop_first(), left, fuel) {
                        None => None,
                        Some(rest) => Some(ys + rest),
                    }
                },
            },
        }
    }
}

/// One fold step for one accumulator value: the update filter's results
/// on the synthetic object, collected.
pub open spec fn fold_step_items(arena: Seq<Closed>, env: Seq<ClosureS>, upd: Closed, accs: Seq<ValS>, x: ValS, fuel: nat) -> Option<Result<Seq<ValS>, Error>>
    decreases fuel, 1int, accs.len(),
{
    if accs.len() == 0 {
        Some(Ok(Seq::empty()))
    } else {
        match eval(arena, env, upd, fold_obj(accs.first(), x), full_demand(), fuel) {
            None => None,
            Some(ys) => match collect_vals(ys) {
                Err(e) => Some(Err(e)),
                Ok(vs) => match fold_step_items(arena, env, upd, accs.drop_first(), x, fuel) {
                    None => None,
                    Some(Err(e)) => Some(Err(e)),
                    Some(Ok(rest)) => Some(Ok(vs + rest)),
                },
            },
        }
    }
}

/// The whole fold: every source value advances every accumulator value;
/// any failure aborts the fold with that error alone.
pub open spec fn fold_items(arena: Seq<Closed>, env: Seq<ClosureS>, upd: Closed, accs: Seq<ValS>, xs: Seq<ValRS>, fuel: nat) -> Option<Result<Seq<ValS>, Error>>
    decreases fuel, 2int, xs.len(),
{
    if xs.len() == 0 {
        Some(Ok(accs))
    } else {
        match xs.first() {
            Err(e) => Some(Err(e)),
            Ok(x) => match fold_step_items(arena, env, upd, accs, x, fuel) {
                None => None,
                Some(Err(e)) => Some(Err(e)),
                Some(Ok(accs2)) => fold_items(arena, env, upd, accs2, xs.drop_first(), fuel),
            },
        }
    }
}

/// The node a shared handle refers to.
pub open spec fn deref_node(g: &Rc<Closed>) -> Closed {
    **g
}

/// The model of an executable evaluation result.
pub open spec fn run_view(r: Option<Vec<ValR>>) -> Option<Seq<ValRS>> {
    match r {
        Some(out) => Some(stream_view(out@)),
        None => None,
    }
}

/// Coerce a count value to a machine integer, as [`as_count`] says.
pub fn as_count_exec(v: &Val) -> (r: Result<usize, Error>)
    ensures
        match r {
            Ok(k) => as_count(v.deep_view()) == Ok::<nat, Error>(k as nat),
            Err(e) => as_count(v.deep_view()) == Err::<nat, Error>(e),
        },
{
    match v {
        Val::Num(n) => {
            if *n >= 0 && (*n as u64) <= (usize::MAX as u64) {
                Ok(*n as usize)
            } else {
                Err(Error::Cast(Tag::Num))
            }
        },
        _ => Err(Error::Cast(v.typ())),
    }
}

/// Collect the values of a stream from position `i` on, stopping at its
/// first error, as [`collect_vals`] says.
pub fn collect_from(xs: &Vec<ValR>, i: usize) -> (r: Result<Vec<Val>, Error>)
    requires
        i <= xs@.len(),
    ensures
        match r {
            Ok(vs) => collect_vals(stream_view(xs@).skip(i as int)) == Ok::<Seq<ValS>, Error>(
                crate::val::seq_view(vs@),
            ),
            Err(e) => collect_vals(stream_view(xs@).skip(i as int)) == Err::<Seq<ValS>, Error>(e),
        },
    decreases xs@.len() - i,
{
    let ghost s = stream_view(xs@).skip(i as int);
    if i >= xs.len() {
        proof {
            assert(s =~= Seq::<ValRS>::empty());
            assert(crate::val::seq_view(Seq::<Val>::empty()) =~= Seq::<ValS>::empty());
        }
        Ok(Vec::new())
    } else {
        proof {
            assert(s.first() == stream_view(xs@)[i as int]);
            assert(s.drop_first() =~= stream_view(xs@).skip(i as int + 1));
        }
        match &xs[i] {
            Err(e) => Err(*e),
            Ok(x) => {
                match collect_from(xs, i + 1) {
                    Err(e) => Err(e),
                    Ok(rest) => {
                        let mut out: Vec<Val> = Vec::new();
                        out.push(x.dup());
                        let mut rest = rest;
                        let ghost restg = rest@;
                        out.append(&mut rest);
                        proof {
                            assert(s.first() == lift_valr(xs@[i as int]));
                            assert(s.first()->Ok_0 == val_view(*x));
                            assert(crate::val::seq_view(out@) =~= seq![val_view(*x)]
                                + crate::val::seq_view(restg));
                            assert(collect_vals(s) == Ok::<Seq<ValS>, Error>(
                                crate::val::seq_view(out@),
                            ));
                        }
                        Ok(out)
                    },
                }
            },
        }
    }
}

/// An exact copy of a stream item.
pub fn dup_valr(r: &ValR) -> (o: ValR)
    ensures
        lift_valr(o) == lift_valr(*r),
{
    match r {
        Ok(v) => Ok(v.dup()),
        Err(e) => Err(*e),
    }
}

/// `select` computed over an already-computed predicate stream, from
/// position `i` on.
pub fn select_from(xs: &Vec<ValR>, i: usize, v: &Val, want: usize) -> (out: Vec<ValR>)
    requires
        i <= xs@.len(),
    ensures
        stream_view(out@) == select_items(
            stream_view(xs@).skip(i as int),
            v.deep_view(),
            want as nat,
        ),
    decreases xs@.len() - i,
{
    let ghost s = stream_view(xs@).skip(i as int);
    if want == 0 || i >= xs.len() {
        proof {
            assert(stream_view(Seq::<ValR>::empty()) =~= Seq::<ValRS>::empty());
        }
        Vec::new()
    } else {
        proof {
            assert(s.first() == lift_valr(xs@[i as int]));
            assert(s.drop_first() =~= stream_view(xs@).skip(i as int + 1));
        }
        match &xs[i] {
            Ok(t) => {
                if t.as_bool() {
                    let mut out: Vec<ValR> = Vec::new();
                    out.push(Ok(v.dup()));
                    let mut rest = select_from(xs, i + 1, v, want - 1);
                    let ghost restg = rest@;
                    out.append(&mut rest);
                    proof {
                        assert(stream_view(out@) =~= seq![Ok(v.deep_view())] + stream_view(restg));
                    }
                    out
                } else {
                    select_from(xs, i + 1, v, want)
                }
            },
            Err(e) => {
                let mut out: Vec<ValR> = Vec::new();
                out.push(Err(*e));
                let mut rest = select_from(xs, i + 1, v, want - 1);
                let ghost restg = rest@;
                out.append(&mut rest);
                proof {
                    assert(stream_view(out@) =~= seq![Err(*e)] + stream_view(restg));
                }
                out
            },
        }
    }
}

/// `last` computed over an already-computed stream, from position `i` on.
pub fn last_from(xs: &Vec<ValR>, i: usize) -> (out: Vec<ValR>)
    requires
        i <= xs@.len(),
    ensures
        stream_view(out@) == last_items(stream_view(xs@).skip(i as int)),
    decreases xs@.len() - i,
{
    let ghost s = stream_view(xs@).skip(i as int);
    if i >= xs.len() {
        proof {
            assert(stream_view(Seq::<ValR>::empty()) =~= Seq::<ValRS>::empty());
        }
        Vec::new()
    } else {
        proof {
            assert(s.first() == lift_valr(xs@[i as int]));
            assert(s.drop_first() =~= stream_view(xs@).skip(i as int + 1));
        }
        match &xs[i] {
            Err(e) => {
                let mut out: Vec<ValR> = Vec::new();
                out.push(Err(*e));
                proof {
                    assert(stream_view(out@) =~= seq![Err(*e)]);
                }
                out
            },
            Ok(x) => {
                if i + 1 == xs.len() {
                    let mut out: Vec<ValR> = Vec::new();
                    out.push(Ok(x.dup()));
                    proof {
                        assert(s.len() == 1);
                        assert(stream_view(out@) =~= seq![Ok(val_view(*x))]);
                    }
                    out
                } else {
                    last_from(xs, i + 1)
                }
            },
        }
    }
}

/// A collected stream cycled from position `idx`, one unit of fuel per
/// emitted item.
pub fn repeat_from(xs: &Vec<ValR>, idx: usize, want: usize, fuel: usize) -> (r: Option<Vec<ValR>>)
    requires
        0 < xs@.len(),
        idx < xs@.len(),
    ensures
        run_view(r) == repeat_items(stream_view(xs@), idx as int, want as nat, fuel as nat),
    decreases fuel,
{
    if want == 0 {
        let out: Vec<ValR> = Vec::new();
        proof {
            assert(stream_view(out@) =~= Seq::<ValRS>::empty());
        }
        Some(out)
    } else if fuel == 0 {
        None
    } else {
        let next = if idx < xs.len() - 1 {
            idx + 1
        } else {
            0
        };
        match repeat_from(xs, next, want - 1, fuel - 1) {
            None => None,
            Some(rest) => {
                let mut out: Vec<ValR> = Vec::new();
                out.push(dup_valr(&xs[idx]));
                let mut rest = rest;
                let ghost restg = rest@;
                out.append(&mut rest);
                proof {
                    assert(stream_view(out@) =~= seq![stream_view(xs@)[idx as int]] + stream_view(
                        restg,
                    ));
                }
                Some(out)
            },
        }
    }
}

/// The operands of a call, each captured with the current bindings.
pub fn make_call_env(ops: &Vec<Rc<Closed>>, env: &Rc<Env>) -> (r: Rc<Env>)
    ensures
        env_view(*r) == call_env(env_view(**env), ops@),
{
    let mut cs: Vec<Closure> = Vec::new();
    let mut i: usize = 0;
    while i < ops.len()
        invariant
            i <= ops.len(),
            cs@.len() == i as int,
            forall|j: int| #![auto]
                0 <= j < i as int ==> cs@[j].node == ops@[j] && cs@[j].env == *env,
        decreases ops.len() - i,
    {
        cs.push((Closure { node: rc_dup(&ops[i]), env: rc_dup(env) }));
        i = i + 1;
    }
    let e = Env(cs);
    proof {
        lemma_env_view(e);
        assert forall|j: int| 0 <= j < ops@.len() implies closure_view(e.0@[j]) == (ClosureS {
            node: *ops@[j],
            env: env_view(**env),
        }) by {
            assert(e.0@[j].node == ops@[j]);
            assert(*e.0@[j].env == **env);
        }
        assert(env_view(e) =~= call_env(env_view(**env), ops@));
    }
    Rc::new(e)
}

impl ClosedFilter {
    /// Run a resolved filter node against an input, asking for at most
    /// `want` stream items; exactly what [`eval`] says.
    pub fn run_node(&self, env: &Rc<Env>, node: &Closed, v: &Val, want: usize, fuel: usize) -> (r:
        Option<Vec<ValR>>)
        ensures
            run_view(r) == eval(
                arena_view(self.arena),
                env_view(**env),
                *node,
                v.deep_view(),
                want as nat,
                fuel as nat,
            ),
        decreases fuel as nat, 0int, 0int,
    {
        if fuel == 0 {
            return None;
        }
        if want == 0 {
            let out: Vec<ValR> = Vec::new();
            proof {
                assert(stream_view(out@) =~= Seq::<ValRS>::empty());
            }
            return Some(out);
        }
        match node {
            Closed::Id => {
                let out: Vec<ValR> = vec![Ok(v.dup())];
                proof {
                    assert(stream_view(out@) =~= seq![Ok(v.deep_view())]);
                }
                Some(out)
            },
            Closed::Lit(l) => {
                let out: Vec<ValR> = vec![Ok(l.dup())];
                proof {
                    assert(stream_view(out@) =~= seq![Ok(val_view(*l))]);
                }
                Some(out)
            },
            Closed::Builtin(b) => b.run(self, env, v, want, fuel - 1),
            Closed::Call(i, ops) => {
                if *i < self.arena.len() {
                    let env2 = make_call_env(ops, env);
                    let body = rc_dup(&self.arena[*i]);
                    self.run_node(&env2, &body, v, want, fuel - 1)
                } else {
                    let out: Vec<ValR> = Vec::new();
                    proof {
                        assert(stream_view(out@) =~= Seq::<ValRS>::empty());
                    }
                    Some(out)
                }
            },
            Closed::Arg(i) => {
                proof {
                    let ghost ev = **env;
                    lemma_env_view(ev);
                }
                if *i < env.0.len() {
                    let benv = rc_dup(&env.0[*i].env);
                    let bnode = rc_dup(&env.0[*i].node);
                    proof {
                        assert(env_view(**env)[*i as int] == closure_view(env.0@[*i as int]));
                    }
                    self.run_node(&benv, &bnode, v, want, fuel - 1)
                } else {
                    let out: Vec<ValR> = Vec::new();
                    proof {
                        assert(stream_view(out@) =~= Seq::<ValRS>::empty());
                    }
                    Some(out)
                }
            },
        }
    }

    /// Run a generator builtin; exactly what [`eval_ref`] says.
    pub fn run_ref(&self, env: &Rc<Env>, r: &Ref<Rc<Closed>>, v: &Val, want: usize, fuel: usize) -> (res:
        Option<Vec<ValR>>)
        requires
            want > 0,
        ensures
            run_view(res) == eval_ref(
                arena_view(self.arena),
                env_view(**env),
                *r,
                v.deep_view(),
                want as nat,
                fuel as nat,
            ),
        decreases fuel as nat, 4int, 0int,
    {
        match r {
            Ref::Empty => {
                let out: Vec<ValR> = Vec::new();
                proof {
                    assert(stream_view(out@) =~= Seq::<ValRS>::empty());
                }
                Some(out)
            },
            Ref::Repeat(g) => {
                match self.run_node(env, g, v, usize::MAX, fuel) {
                    None => None,
                    Some(xs) => {
                        if xs.len() == 0 {
                            let out: Vec<ValR> = Vec::new();
                            proof {
                                assert(stream_view(out@) =~= Seq::<ValRS>::empty());
                            }
                            Some(out)
                        } else {
                            repeat_from(&xs, 0, want, fuel)
                        }
                    },
                }
            },
            Ref::First(g) => self.run_node(env, g, v, 1, fuel),
            Ref::Last(g) => {
                match self.run_node(env, g, v, usize::MAX, fuel) {
                    None => None,
                    Some(xs) => {
                        let out = last_from(&xs, 0);
                        proof {
                            assert(stream_view(xs@).skip(0) =~= stream_view(xs@));
                        }
                        Some(out)
                    },
                }
            },
            Ref::Select(g) => {
                match self.run_node(env, g, v, usize::MAX, fuel) {
                    None => None,
                    Some(xs) => {
                        let out = select_from(&xs, 0, v, want);
                        proof {
                            assert(stream_view(xs@).skip(0) =~= stream_view(xs@));
                        }
                        Some(out)
                    },
                }
            },
            Ref::Limit(n, g) => {
                match self.run_node(env, n, v, usize::MAX, fuel) {
                    None => None,
                    Some(cs) => {
                        let out = self.run_limit(env, &cs, 0, g, v, want, fuel);
                        proof {
                            assert(stream_view(cs@).skip(0) =~= stream_view(cs@));
                        }
                        out
                    },
                }
            },
            Ref::Recurse(g) => self.run_recurse(env, g, v, want, fuel),
            Ref::Fold(src, init, upd) => {
                match self.run_node(env, src, v, usize::MAX, fuel) {
                    None => None,
                    Some(xs) => {
                        match self.run_node(env, init, v, usize::MAX, fuel) {
                            None => None,
                            Some(is) => {
                                proof {
                                    assert(stream_view(is@).skip(0) =~= stream_view(is@));
                                    assert(stream_view(xs@).skip(0) =~= stream_view(xs@));
                                }
                                match collect_from(&is, 0) {
                                    Err(e) => {
                                        let out: Vec<ValR> = vec![Err(e)];
                                        proof {
                                            assert(stream_view(out@) =~= seq![
                                                Err::<ValS, Error>(e),
                                            ]);
                                        }
                                        Some(out)
                                    },
                                    Ok(accs) => {
                                        match self.run_fold(env, upd, accs, &xs, 0, fuel) {
                                            None => None,
                                            Some(Err(e)) => {
                                                let out: Vec<ValR> = vec![Err(e)];
                                                proof {
                                                    assert(stream_view(out@) =~= seq![
                                                        Err::<ValS, Error>(e),
                                                    ]);
                                                }
                                                Some(out)
                                            },
                                            Some(Ok(accs2)) => {
                                                let mut out: Vec<ValR> = Vec::new();
                                                let mut k: usize = 0;
                                                let ghost fs = crate::val::seq_view(
                                                    accs2@,
                                                ).map_values(|a: ValS| Ok::<ValS, Error>(a));
                                                while k < accs2.len() && k < want
                                                    invariant
                                                        k <= accs2.len(),
                                                        k <= want,
                                                        fs == crate::val::seq_view(
                                                            accs2@,
                                                        ).map_values(|a: ValS| Ok::<ValS, Error>(a)),
                                                        stream_view(out@) =~= fs.take(k as int),
                                                    decreases accs2.len() - k,
                                                {
                                                    let d = accs2[k].dup();
                                                    let ghost prev = out@;
                                                    out.push(Ok(d));
                                                    proof {
                                                        assert(lift_valr(Ok(d)) == Ok::<
                                                            ValS,
                                                            Error,
                                                        >(val_view(accs2@[k as int])));
                                                        assert(fs[k as int] == Ok::<
                                                            ValS,
                                                            Error,
                                                        >(val_view(accs2@[k as int])));
                                                        assert(stream_view(out@)
                                                            =~= stream_view(prev).push(
                                                            lift_valr(Ok(d)),
                                                        ));
                                                        assert(fs.take(k as int + 1) =~= fs.take(
                                                            k as int,
                                                        ).push(fs[k as int]));
                                                        assert(stream_view(out@) =~= fs.take(
                                                            k as int + 1,
                                                        ));
                                                    }
                                                    k = k + 1;
                                                }
                                                proof {
                                                    if want < fs.len() {
                                                        assert(stream_view(out@) =~= take_want(
                                                            fs,
                                                            want as nat,
                                                        ));
                                                    } else {
                                                        assert(fs.take(accs2@.len() as int)
                                                            =~= fs);
                                                        assert(stream_view(out@) =~= take_want(
                                                            fs,
                                                            want as nat,
                                                        ));
                                                    }
                                                }
                                                Some(out)
                                            },
                                        }
                                    },
                                }
                            },
                        }
                    },
                }
            },
        }
    }

    /// Run `limit` over the counts from position `i` on; exactly what
    /// [`limit_items`] says.
    pub fn run_limit(&self, env: &Rc<Env>, cs: &Vec<ValR>, i: usize, g: &Rc<Closed>, v: &Val, want: usize, fuel: usize) -> (r: Option<Vec<ValR>>)
        requires
            i <= cs@.len(),
        ensures
            run_view(r) == limit_items(
                arena_view(self.arena),
                env_view(**env),
                stream_view(cs@).skip(i as int),
                **g,
                v.deep_view(),
                want as nat,
                fuel as nat,
            ),
        decreases fuel as nat, 1int, cs@.len() - i,
    {
        let ghost s = stream_view(cs@).skip(i as int);
        if want == 0 || i >= cs.len() {
            let out: Vec<ValR> = Vec::new();
            proof {
                assert(stream_view(out@) =~= Seq::<ValRS>::empty());
            }
            return Some(out);
        }
        proof {
            assert(s.first() == lift_valr(cs@[i as int]));
            assert(s.drop_first() =~= stream_view(cs@).skip(i as int + 1));
        }
        let head = &cs[i];
        let bad: Error;
        match head {
            Err(e) => {
                bad = *e;
            },
            Ok(c) => {
                match as_count_exec(c) {
                    Err(ce) => {
                        bad = ce;
                    },
                    Ok(k) => {
                        let w = if k < want {
                            k
                        } else {
                            want
                        };
                        match self.run_node(env, g, v, w, fuel) {
                            None => {
                                return None;
                            },
                            Some(seg) => {
                                let left = if seg.len() < want {
                                    want - seg.len()
                                } else {
                                    0
                                };
                                match self.run_limit(env, cs, i + 1, g, v, left, fuel) {
                                    None => {
                                        return None;
                                    },
                                    Some(rest) => {
                                        let mut out = seg;
                                        let ghost segg = out@;
                                        let mut rest = rest;
                                        let ghost restg = rest@;
                                        out.append(&mut rest);
                                        proof {
                                            assert(stream_view(out@) =~= stream_view(segg)
                                                + stream_view(restg));
                                        }
                                        return Some(out);
                                    },
                                }
                            },
                        }
                    },
                }
            },
        }
        match self.run_limit(env, cs, i + 1, g, v, want - 1, fuel) {
            None => None,
            Some(rest) => {
                let mut out: Vec<ValR> = Vec::new();
                out.push(Err(bad));
                let mut rest = rest;
                let ghost restg = rest@;
                out.append(&mut rest);
                proof {
                    assert(stream_view(out@) =~= seq![Err::<ValS, Error>(bad)] + stream_view(
                        restg,
                    ));
                }
                Some(out)
            },
        }
    }

    /// Run `recurse`; exactly what [`eval_recurse`] says.
    pub fn run_recurse(&self, env: &Rc<Env>, g: &Rc<Closed>, v: &Val, want: usize, fuel: usize) -> (r: Option<Vec<ValR>>)
        ensures
            run_view(r) == eval_recurse(
                arena_view(self.arena),
                env_view(**env),
                **g,
                v.deep_view(),
                want as nat,
                fuel as nat,
            ),
        decreases fuel as nat, 2int, 0int,
    {
        if want == 0 {
            let out: Vec<ValR> = Vec::new();
            proof {
                assert(stream_view(out@) =~= Seq::<ValRS>::empty());
            }
            return Some(out);
        }
        if fuel == 0 {
            return None;
        }
        match self.run_node(env, g, v, usize::MAX, fuel - 1) {
            None => None,
            Some(xs) => {
                proof {
                    assert(stream_view(xs@).skip(0) =~= stream_view(xs@));
                }
                match self.recurse_from(env, g, &xs, 0, want - 1, fuel - 1) {
                    None => None,
                    Some(rest) => {
                        let mut out: Vec<ValR> = Vec::new();
                        out.push(Ok(v.dup()));
                        let mut rest = rest;
                        let ghost restg = rest@;
                        out.append(&mut rest);
                        proof {
                            assert(stream_view(out@) =~= seq![Ok(v.deep_view())] + stream_view(
                                restg,
                            ));
                        }
                        Some(out)
                    },
                }
            },
        }
    }

    /// Recurse into each result of one expansion step, from position `i`
    /// on; exactly what [`recurse_items`] says.
    pub fn recurse_from(&self, env: &Rc<Env>, g: &Rc<Closed>, xs: &Vec<ValR>, i: usize, want: usize, fuel: usize) -> (r: Option<Vec<ValR>>)
        requires
            i <= xs@.len(),
        ensures
            run_view(r) == recurse_items(
                arena_view(self.arena),
                env_view(**env),
                **g,
                stream_view(xs@).skip(i as int),
                want as nat,
                fuel as nat,
            ),
        decreases fuel as nat, 3int, xs@.len() - i,
    {
        let ghost s = stream_view(xs@).skip(i as int);
        if want == 0 || i >= xs.len() {
            let out: Vec<ValR> = Vec::new();
            proof {
                assert(stream_view(out@) =~= Seq::<ValRS>::empty());
            }
            return Some(out);
        }
        proof {
            assert(s.first() == lift_valr(xs@[i as int]));
            assert(s.drop_first() =~= stream_view(xs@).skip(i as int + 1));
        }
        match &xs[i] {
            Err(e) => {
                let out: Vec<ValR> = vec![Err(*e)];
                proof {
                    assert(stream_view(out@) =~= seq![Err::<ValS, Error>(*e)]);
                }
                Some(out)
            },
            Ok(w) => {
                match self.run_recurse(env, g, w, want, fuel) {
                    None => None,
                    Some(ys) => {
                        let left = if ys.len() < want {
                            want - ys.len()
                        } else {
                            0
                        };
                        match self.recurse_from(env, g, xs, i + 1, left, fuel) {
                            None => None,
                            Some(rest) => {
                                let mut out = ys;
                                let ghost ysg = out@;
                                let mut rest = rest;
                                let ghost restg = rest@;
                                out.append(&mut rest);
                                proof {
                                    assert(stream_view(out@) =~= stream_view(ysg) + stream_view(
                                        restg,
                                    ));
                                }
                                Some(out)
                            },
                        }
                    },
                }
            },
        }
    }

    /// Advance the accumulator values from position `j` on by one source
    /// value; exactly what [`fold_step_items`] says.
    pub fn fold_step(&self, env: &Rc<Env>, upd: &Rc<Closed>, accs: &Vec<Val>, j: usize, x: &Val, fuel: usize) -> (r: Option<Result<Vec<Val>, Error>>)
        requires
            j <= accs@.len(),
        ensures
            match r {
                None => fold_step_items(
                    arena_view(self.arena),
                    env_view(**env),
                    **upd,
                    crate::val::seq_view(accs@).skip(j as int),
                    x.deep_view(),
                    fuel as nat,
                ) is None,
                Some(Ok(vs)) => fold_step_items(
                    arena_view(self.arena),
                    env_view(**env),
                    **upd,
                    crate::val::seq_view(accs@).skip(j as int),
                    x.deep_view(),
                    fuel as nat,
                ) == Some(Ok::<Seq<ValS>, Error>(crate::val::seq_view(vs@))),
                Some(Err(e)) => fold_step_items(
                    arena_view(self.arena),
                    env_view(**env),
                    **upd,
                    crate::val::seq_view(accs@).skip(j as int),
                    x.deep_view(),
                    fuel as nat,
                ) == Some(Err::<Seq<ValS>, Error>(e)),
            },
        decreases fuel as nat, 1int, accs@.len() - j,
    {
        let ghost a = crate::val::seq_view(accs@).skip(j as int);
        if j >= accs.len() {
            proof {
                assert(a =~= Seq::<ValS>::empty());
                assert(crate::val::seq_view(Seq::<Val>::empty()) =~= Seq::<ValS>::empty());
            }
            return Some(Ok(Vec::new()));
        }
        proof {
            assert(a.first() == val_view(accs@[j as int]));
            assert(a.drop_first() =~= crate::val::seq_view(accs@).skip(j as int + 1));
        }
        let mut pairs: Vec<(String, Val)> = Vec::new();
        pairs.push(("acc".to_owned(), accs[j].dup()));
        pairs.push(("x".to_owned(), x.dup()));
        let obj = Val::Obj(pairs);
        proof {
            lemma_val_view_obj(obj->Obj_0);
            assert(pairs_view(obj->Obj_0@) =~= seq![
                ("acc"@, val_view(accs@[j as int])),
                ("x"@, x.deep_view()),
            ]);
            assert(obj.deep_view() == fold_obj(a.first(), x.deep_view()));
        }
        match self.run_node(env, upd, &obj, usize::MAX, fuel) {
            None => None,
            Some(ys) => {
                proof {
                    assert(stream_view(ys@).skip(0) =~= stream_view(ys@));
                }
                match collect_from(&ys, 0) {
                    Err(e) => Some(Err(e)),
                    Ok(vs) => {
                        match self.fold_step(env, upd, accs, j + 1, x, fuel) {
                            None => None,
                            Some(Err(e)) => Some(Err(e)),
                            Some(Ok(rest)) => {
                                let mut out = vs;
                                let ghost vsg = out@;
                                let mut rest = rest;
                                let ghost restg = rest@;
                                out.append(&mut rest);
                                proof {
                                    assert(crate::val::seq_view(out@) =~= crate::val::seq_view(
                                        vsg,
                                    ) + crate::val::seq_view(restg));
                                }
                                Some(Ok(out))
                            },
                        }
                    },
                }
            },
        }
    }

    /// Run the whole fold over the source items from position `i` on;
    /// exactly what [`fold_items`] says.
    pub fn run_fold(&self, env: &Rc<Env>, upd: &Rc<Closed>, accs: Vec<Val>, xs: &Vec<ValR>, i: usize, fuel: usize) -> (r: Option<Result<Vec<Val>, Error>>)
        requires
            i <= xs@.len(),
        ensures
            match r {
                None => fold_items(
                    arena_view(self.arena),
                    env_view(**env),
                    **upd,
                    crate::val::seq_view(accs@),
                    stream_view(xs@).skip(i as int),
                    fuel as nat,
                ) is None,
                Some(Ok(vs)) => fold_items(
                    arena_view(self.arena),
                    env_view(**env),
                    **upd,
                    crate::val::seq_view(accs@),
                    stream_view(xs@).skip(i as int),
                    fuel as nat,
                ) == Some(Ok::<Seq<ValS>, Error>(crate::val::seq_view(vs@))),
                Some(Err(e)) => fold_items(
                    arena_view(self.arena),
                    env_view(**env),
                    **upd,
                    crate::val::seq_view(accs@),
                    stream_view(xs@).skip(i as int),
                    fuel as nat,
                ) == Some(Err::<Seq<ValS>, Error>(e)),
            },
        decreases fuel as nat, 2int, xs@.len() - i,
    {
        let ghost s = stream_view(xs@).skip(i as int);
        if i >= xs.len() {
            proof {
                assert(s =~= Seq::<ValRS>::empty());
            }
            return Some(Ok(accs));
        }
        proof {
            assert(s.first() == lift_valr(xs@[i as int]));
            assert(s.drop_first() =~= stream_view(xs@).skip(i as int + 1));
        }
        match &xs[i] {
            Err(e) => Some(Err(*e)),
            Ok(x) => {
                proof {
                    assert(crate::val::seq_view(accs@).skip(0) =~= crate::val::seq_view(accs@));
                }
                match self.fold_step(env, upd, &accs, 0, x, fuel) {
                    None => None,
                    Some(Err(e)) => Some(Err(e)),
                    Some(Ok(accs2)) => self.run_fold(env, upd, accs2, xs, i + 1, fuel),
                }
            },
        }
    }

    /// Run the resolved program against an input value, with the given
    /// fuel; exactly what [`eval`] says of its term under no bindings and
    /// a full demand.
    pub fn run(&self, v: &Val, fuel: usize) -> (r: Option<Vec<ValR>>)
        ensures
            run_view(r) == eval(
                arena_view(self.arena),
                Seq::empty(),
                *self.term,
                v.deep_view(),
                full_demand(),
                fuel as nat,
            ),
    {
        let env = Rc::new(Env(Vec::new()));
        proof {
            let ghost ev = *env;
            lemma_env_view(ev);
            assert(env_view(*env) =~= Seq::<ClosureS>::empty());
        }
        let term = rc_dup(&self.term);
        self.run_node(&env, &term, v, usize::MAX, fuel)
    }
}

impl Builtin<Rc<Closed>> {
    /// Run a resolved builtin: an atomic builtin yields its one result,
    /// a generator builtin yields what [`eval_ref`] says.
    pub fn run(&self, cf: &ClosedFilter, env: &Rc<Env>, v: &Val, want: usize, fuel: usize) -> (r:
        Option<Vec<ValR>>)
        requires
            want >= 1,
        ensures
            *self is New ==> run_view(r) == Some(seq![new_of(self->New_0, v.deep_view())]),
            *self is Ref ==> run_view(r) == eval_ref(
                arena_view(cf.arena),
                env_view(**env),
                self->Ref_0,
                v.deep_view(),
                want as nat,
                fuel as nat,
            ),
        decreases fuel as nat, 6int, 0int,
    {
        match self {
            Builtin::New(op) => {
                let out: Vec<ValR> = vec![op.run(v)];
                proof {
                    assert(stream_view(out@) =~= seq![new_of(*op, v.deep_view())]);
                }
                Some(out)
            },
            Builtin::Ref(rf) => rf.run(cf, env, v, want, fuel),
        }
    }
}

impl Ref<Rc<Closed>> {
    /// Run a resolved generator builtin; exactly what [`eval_ref`] says.
    pub fn run(&self, cf: &ClosedFilter, env: &Rc<Env>, v: &Val, want: usize, fuel: usize) -> (r:
        Option<Vec<ValR>>)
        requires
            want >= 1,
        ensures
            run_view(r) == eval_ref(
                arena_view(cf.arena),
                env_view(**env),
                *self,
                v.deep_view(),
                want as nat,
                fuel as nat,
            ),
        decreases fuel as nat, 5int, 0int,
    {
        cf.run_ref(env, self, v, want, fuel)
    }
}

} // verus!
