//! The catalog of builtin operations: atomic (`New`) builtins that produce
//! exactly one result or fail, and generator (`Ref`) builtins that take
//! sub-filters as operands and may produce any number of results.

use vstd::prelude::*;
use crate::val::{Val, ValR, ValS, ValRS, Error, val_view, truthy, tag_of, tag_name, len_of, add_of, add_fold, iter_of, combine_of, lift_valr};
use crate::filter::Closed;
use std::rc::Rc;

verus! {

/// A builtin operation: atomic or generator.
#[derive(Debug)]
pub enum Builtin<F> {
    New(New),
    Ref(Ref<F>),
}

/// An atomic builtin: always exactly one result, or one error.
#[derive(Clone, Copy, Debug, PartialEq, Eq, Structural)]
pub enum New {
    Null,
    True,
    False,
    Not,
    Add,
    Length,
    Type,
}

/// A generator builtin; `F` is the representation of its sub-filter
/// operands (an operand index in the catalog, a direct reference once
/// resolved).
#[derive(Debug)]
pub enum Ref<F> {
    Empty,
    Repeat(F),
    First(F),
    Last(F),
    Limit(F, F),
    Select(F),
    Recurse(F),
    Fold(F, F, F),
}

/// What an atomic builtin returns on a given input.
pub open spec fn new_of(op: New, v: ValS) -> ValRS {
    match op {
        New::Null => Ok(ValS::Null),
        New::True => Ok(ValS::Bool(true)),
        New::False => Ok(ValS::Bool(false)),
        New::Not => Ok(ValS::Bool(!truthy(v))),
        New::Add => add_of(v),
        New::Length => match len_of(v) {
            Ok(l) => if i64::MIN <= l <= i64::MAX {
                Ok(ValS::Num(l))
            } else {
                Err(Error::Overflow)
            },
            Err(e) => Err(e),
        },
        New::Type => Ok(ValS::Str(tag_name(tag_of(v)))),
    }
}

impl New {
    /// Run an atomic builtin on an input value.
    #[verifier::loop_isolation(false)]
    pub fn run(&self, v: &Val) -> (r: ValR)
        ensures
            lift_valr(r) == new_of(*self, v.deep_view()),
    {
        match self {
            New::Null => Ok(Val::Null),
            New::True => Ok(Val::Bool(true)),
            New::False => Ok(Val::Bool(false)),
            New::Not => Ok(Val::Bool(!v.as_bool())),
            New::Add => {
                match v.iterate() {
                    Ok(els) => {
                        let ghost s = iter_of(v.deep_view())->Ok_0;
                        let mut acc = Val::Null;
                        let mut i: usize = 0;
                        proof {
                            assert(s.skip(0) =~= s);
                        }
                        while i < els.len()
                            invariant
                                i <= els.len(),
                                crate::val::seq_view(els@) == s,
                                add_fold(val_view(acc), s.skip(i as int)) == add_fold(
                                    ValS::Null,
                                    s,
                                ),
                            decreases els.len() - i,
                        {
                            proof {
                                assert(s.len() == els@.len());
                                assert(s.skip(i as int)[0] == s[i as int]);
                                assert(s.skip(i as int).first() == val_view(els@[i as int]));
                                assert(s.skip(i as int).drop_first() =~= s.skip(i as int + 1));
                            }
                            let ghost acc0 = val_view(acc);
                            match acc.combine(els[i].dup()) {
                                Ok(a) => {
                                    acc = a;
                                },
                                Err(e) => {
                                    proof {
                                        assert(combine_of(acc0, s.skip(i as int).first())
                                            == Err::<ValS, Error>(e));
                                        assert(add_fold(acc0, s.skip(i as int)) == Err::<
                                            ValS,
                                            Error,
                                        >(e));
                                    }
                                    return Err(e);
                                },
                            }
                            i = i + 1;
                        }
                        proof {
                            assert(s.skip(els@.len() as int) =~= Seq::<ValS>::empty());
                        }
                        Ok(acc)
                    },
                    Err(e) => Err(e),
                }
            },
            New::Length => {
                match v.length() {
                    Ok(n) => Ok(Val::Num(n)),
                    Err(e) => Err(e),
                }
            },
            New::Type => Ok(Val::Str(v.typ().name())),
        }
    }
}

/// Operand indices a catalog entry of the given arity may use.
pub open spec fn ref_wf(r: Ref<usize>, arity: nat) -> bool {
    match r {
        Ref::Empty => true,
        Ref::Repeat(f) => f < arity,
        Ref::First(f) => f < arity,
        Ref::Last(f) => f < arity,
        Ref::Limit(n, f) => n < arity && f < arity,
        Ref::Select(f) => f < arity,
        Ref::Recurse(f) => f < arity,
        Ref::Fold(xs, init, f) => xs < arity && init < arity && f < arity,
    }
}

pub open spec fn builtin_wf(b: Builtin<usize>, arity: nat) -> bool {
    match b {
        Builtin::New(_) => true,
        Builtin::Ref(r) => ref_wf(r, arity),
    }
}

/// The instantiated generator has the same shape, with operand `i`
/// replaced by the `i`-th resolved operand.
pub open spec fn ref_inst(r0: Ref<usize>, r1: Ref<Rc<Closed>>, ops: Seq<Rc<Closed>>) -> bool {
    match (r0, r1) {
        (Ref::Empty, Ref::Empty) => true,
        (Ref::Repeat(i), Ref::Repeat(f)) => f == ops[i as int],
        (Ref::First(i), Ref::First(f)) => f == ops[i as int],
        (Ref::Last(i), Ref::Last(f)) => f == ops[i as int],
        (Ref::Limit(i, j), Ref::Limit(n, f)) => n == ops[i as int] && f == ops[j as int],
        (Ref::Select(i), Ref::Select(f)) => f == ops[i as int],
        (Ref::Recurse(i), Ref::Recurse(f)) => f == ops[i as int],
        (Ref::Fold(i, j, k), Ref::Fold(xs, init, f)) => xs == ops[i as int] && init == ops[j as int]
            && f == ops[k as int],
        _ => false,
    }
}

pub open spec fn builtin_inst(b0: Builtin<usize>, b1: Builtin<Rc<Closed>>, ops: Seq<Rc<Closed>>) -> bool {
    match (b0, b1) {
        (Builtin::New(n0), Builtin::New(n1)) => n0 == n1,
        (Builtin::Ref(r0), Builtin::Ref(r1)) => ref_inst(r0, r1, ops),
        _ => false,
    }
}

impl Ref<usize> {
    /// Instantiate a catalog entry's operand indices with resolved operands.
    pub fn map(&self, ops: &Vec<Rc<Closed>>) -> (r: Ref<Rc<Closed>>)
        requires
            ref_wf(*self, ops@.len() as nat),
        ensures
            ref_inst(*self, r, ops@),
    {
        match self {
            Ref::Empty => Ref::Empty,
            Ref::Repeat(f) => Ref::Repeat(crate::filter::rc_dup(&ops[*f])),
            Ref::First(f) => Ref::First(crate::filter::rc_dup(&ops[*f])),
            Ref::Last(f) => Ref::Last(crate::filter::rc_dup(&ops[*f])),
            Ref::Limit(n, f) => Ref::Limit(
                crate::filter::rc_dup(&ops[*n]),
                crate::filter::rc_dup(&ops[*f]),
            ),
            Ref::Select(f) => Ref::Select(crate::filter::rc_dup(&ops[*f])),
            Ref::Recurse(f) => Ref::Recurse(crate::filter::rc_dup(&ops[*f])),
            Ref::Fold(xs, init, f) => Ref::Fold(
                crate::filter::rc_dup(&ops[*xs]),
                crate::filter::rc_dup(&ops[*init]),
                crate::filter::rc_dup(&ops[*f]),
            ),
        }
    }
}

impl Ref<usize> {
    /// Instantiate, first checking that every operand index is in range
    /// for the operands supplied; fails exactly when one is not.
    pub fn try_map(&self, ops: &Vec<Rc<Closed>>) -> (r: Result<Ref<Rc<Closed>>, ()>)
        ensures
            ref_wf(*self, ops@.len() as nat) <==> r is Ok,
            (match r {
                Ok(rf) => ref_inst(*self, rf, ops@),
                Err(_) => true,
            }),
    {
        let ok = match self {
            Ref::Empty => true,
            Ref::Repeat(f) => *f < ops.len(),
            Ref::First(f) => *f < ops.len(),
            Ref::Last(f) => *f < ops.len(),
            Ref::Limit(n, f) => *n < ops.len() && *f < ops.len(),
            Ref::Select(f) => *f < ops.len(),
            Ref::Recurse(f) => *f < ops.len(),
            Ref::Fold(xs, init, f) => *xs < ops.len() && *init < ops.len() && *f < ops.len(),
        };
        if ok {
            Ok(self.map(ops))
        } else {
            Err(())
        }
    }
}

impl Builtin<usize> {
    /// Instantiate a catalog entry's operand indices with resolved operands.
    pub fn map(&self, ops: &Vec<Rc<Closed>>) -> (r: Builtin<Rc<Closed>>)
        requires
            builtin_wf(*self, ops@.len() as nat),
        ensures
            builtin_inst(*self, r, ops@),
    {
        match self {
            Builtin::New(n) => Builtin::New(*n),
            Builtin::Ref(r) => Builtin::Ref(r.map(ops)),
        }
    }

    /// Instantiate, first checking that every operand index is in range
    /// for the operands supplied; fails exactly when one is not.
    pub fn try_map(&self, ops: &Vec<Rc<Closed>>) -> (r: Result<Builtin<Rc<Closed>>, ()>)
        ensures
            builtin_wf(*self, ops@.len() as nat) <==> r is Ok,
            match r {
                Ok(b) => builtin_inst(*self, b, ops@),
                Err(_) => true,
            },
    {
        match self {
            Builtin::New(n) => Ok(Builtin::New(*n)),
            Builtin::Ref(r) => match r.try_map(ops) {
                Ok(rf) => Ok(Builtin::Ref(rf)),
                Err(e) => Err(e),
            },
        }
    }
}

} // verus!
