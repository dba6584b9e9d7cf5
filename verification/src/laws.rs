//! General laws of the value model and the evaluation engine, each proved
//! once and for all inputs the law speaks of.

use vstd::prelude::*;
use crate::val::{ValS, ValRS, Error, truthy, iter_of, len_of, add_of, add_fold, combine_of};
use crate::functions::{New, Ref, Builtin, new_of};
use crate::filter::{Closed, ClosureS};
use crate::eval::{eval, eval_ref, eval_recurse, recurse_items, select_items, last_items, limit_items, repeat_items, call_env, deref_node, collect_vals, fold_obj, fold_step_items, fold_items, take_want, full_demand, as_count};
use std::rc::Rc;

verus! {

/// The smaller of two counts.
pub open spec fn min_nat(a: nat, b: nat) -> nat {
    if a < b {
        a
    } else {
        b
    }
}

/// The length of an array or object equals the number of members its
/// iteration yields.
pub proof fn lemma_length_counts_members(v: ValS)
    requires
        v is Arr || v is Obj,
    ensures
        iter_of(v) is Ok,
        len_of(v) == Ok::<int, Error>(iter_of(v)->Ok_0.len() as int),
{
}

/// `add` is the left fold of `combine` over the member stream, starting
/// from `Null`; on a value with no member stream it fails with that
/// value's iteration error.
pub proof fn lemma_add_is_fold(v: ValS)
    ensures
        add_of(v) == (match iter_of(v) {
            Ok(s) => add_fold(ValS::Null, s),
            Err(e) => Err(e),
        }),
{
}

/// `add` of an empty array is `Null`.
pub proof fn lemma_add_empty_array()
    ensures
        add_of(ValS::Arr(Seq::empty())) == Ok::<ValS, Error>(ValS::Null),
{
}

/// `select` with the constant-`true` filter is the identity generator:
/// it yields exactly the input, once, for any input.
pub proof fn lemma_select_true_identity(
    arena: Seq<Closed>,
    env: Seq<ClosureS>,
    g: Rc<Closed>,
    v: ValS,
    want: nat,
    fuel: nat,
)
    requires
        *g == Closed::Builtin(Builtin::New(New::True)),
        want >= 1,
        fuel >= 3,
    ensures
        eval(arena, env, Closed::Builtin(Builtin::Ref(Ref::Select(g))), v, want, fuel) == Some(
            seq![Ok::<ValS, Error>(v)],
        ),
{
    let fl = (fuel - 1) as nat;
    let xs = seq![Ok::<ValS, Error>(ValS::Bool(true))];
    assert(eval(arena, env, *g, v, full_demand(), fl) == Some(xs));
    assert(truthy(xs.first()->Ok_0));
    assert(xs.drop_first() =~= Seq::<ValRS>::empty());
    assert(select_items(Seq::<ValRS>::empty(), v, (want - 1) as nat) =~= Seq::<ValRS>::empty());
    assert(select_items(xs, v, want) =~= seq![Ok::<ValS, Error>(v)] + Seq::<ValRS>::empty());
    assert(seq![Ok::<ValS, Error>(v)] + Seq::<ValRS>::empty() =~= seq![Ok::<ValS, Error>(v)]);
    assert(eval_ref(arena, env, Ref::Select(g), v, want, fl) == Some(select_items(xs, v, want)));
}

/// Whatever the filter, `recurse` yields the input first: any produced
/// stream starts with the input.
pub proof fn lemma_recurse_input_first(
    arena: Seq<Closed>,
    env: Seq<ClosureS>,
    g: Rc<Closed>,
    v: ValS,
    want: nat,
    fuel: nat,
    out: Seq<ValRS>,
)
    requires
        want >= 1,
        eval(arena, env, Closed::Builtin(Builtin::Ref(Ref::Recurse(g))), v, want, fuel) == Some(
            out,
        ),
    ensures
        out.len() >= 1,
        out.first() == Ok::<ValS, Error>(v),
{
    assert(fuel >= 1);
    let fl = (fuel - 1) as nat;
    assert(eval_ref(arena, env, Ref::Recurse(g), v, want, fl) == Some(out));
    assert(eval_recurse(arena, env, *g, v, want, fl) == Some(out));
    assert(fl >= 1);
    let fll = (fl - 1) as nat;
    assert(eval(arena, env, *g, v, full_demand(), fll) is Some);
    assert(out == seq![Ok::<ValS, Error>(v)] + recurse_items(
        arena,
        env,
        *g,
        eval(arena, env, *g, v, full_demand(), fll)->Some_0,
        (want - 1) as nat,
        fll,
    )->Some_0);
}

/// `recurse(empty)` yields exactly one result: the input itself.
pub proof fn lemma_recurse_empty(
    arena: Seq<Closed>,
    env: Seq<ClosureS>,
    g: Rc<Closed>,
    v: ValS,
    want: nat,
    fuel: nat,
)
    requires
        *g == Closed::Builtin(Builtin::Ref(Ref::Empty)),
        want >= 1,
        fuel >= 4,
    ensures
        eval(arena, env, Closed::Builtin(Builtin::Ref(Ref::Recurse(g))), v, want, fuel) == Some(
            seq![Ok::<ValS, Error>(v)],
        ),
{
    let fl = (fuel - 1) as nat;
    let fll = (fl - 1) as nat;
    assert(eval_ref(arena, env, Ref::Empty, v, full_demand(), (fll - 1) as nat) == Some(
        Seq::<ValRS>::empty(),
    ));
    assert(eval(arena, env, *g, v, full_demand(), fll) == Some(Seq::<ValRS>::empty()));
    assert(recurse_items(arena, env, *g, Seq::<ValRS>::empty(), (want - 1) as nat, fll) == Some(
        Seq::<ValRS>::empty(),
    ));
    assert(eval_recurse(arena, env, *g, v, want, fl) == Some(
        seq![Ok::<ValS, Error>(v)] + Seq::<ValRS>::empty(),
    ));
    assert(seq![Ok::<ValS, Error>(v)] + Seq::<ValRS>::empty() =~= seq![Ok::<ValS, Error>(v)]);
    assert(eval_ref(arena, env, Ref::Recurse(g), v, want, fl) == Some(seq![Ok::<ValS, Error>(v)]));
}

/// On a stream of exactly one value, taking the first item and taking
/// the last item give the same, single-item stream.
pub proof fn lemma_first_last_single(xs: Seq<ValRS>)
    requires
        xs.len() == 1,
        xs.first() is Ok,
    ensures
        take_want(xs, 1) == xs,
        last_items(xs) == xs,
{
    assert(last_items(xs) =~= xs);
}

/// `limit(0, f)` yields zero results for any filter: the count literal
/// `0` makes the bounded run ask for nothing.
pub proof fn lemma_limit_zero(
    arena: Seq<Closed>,
    env: Seq<ClosureS>,
    n: Rc<Closed>,
    g: Rc<Closed>,
    v: ValS,
    want: nat,
    fuel: nat,
)
    requires
        *n == Closed::Lit(crate::val::Val::Num(0)),
        want >= 1,
        fuel >= 3,
    ensures
        eval(arena, env, Closed::Builtin(Builtin::Ref(Ref::Limit(n, g))), v, want, fuel) == Some(
            Seq::<ValRS>::empty(),
        ),
{
    let fl = (fuel - 1) as nat;
    let cs = seq![Ok::<ValS, Error>(ValS::Num(0))];
    assert(eval(arena, env, *n, v, full_demand(), fl) == Some(cs));
    assert(as_count(cs.first()->Ok_0) == Ok::<nat, Error>(0));
    assert(eval(arena, env, *g, v, 0, fl) == Some(Seq::<ValRS>::empty()));
    assert(cs.drop_first() =~= Seq::<ValRS>::empty());
    assert(limit_items(arena, env, cs.drop_first(), *g, v, want, fl) == Some(
        Seq::<ValRS>::empty(),
    ));
    assert(limit_items(arena, env, cs, *g, v, want, fl) == Some(
        Seq::<ValRS>::empty() + Seq::<ValRS>::empty(),
    ));
    assert(Seq::<ValRS>::empty() + Seq::<ValRS>::empty() =~= Seq::<ValRS>::empty());
    assert(eval_ref(arena, env, Ref::Limit(n, g), v, want, fl) == Some(Seq::<ValRS>::empty()));
}

/// `limit` with a literal count `k` is exactly one bounded run of its
/// filter: the run that asks for `min(k, want)` items.
pub proof fn lemma_limit_literal(
    arena: Seq<Closed>,
    env: Seq<ClosureS>,
    n: Rc<Closed>,
    g: Rc<Closed>,
    v: ValS,
    k: i64,
    want: nat,
    fuel: nat,
    seg: Seq<ValRS>,
)
    requires
        *n == Closed::Lit(crate::val::Val::Num(k)),
        0 <= k <= usize::MAX,
        want >= 1,
        fuel >= 2,
        eval(arena, env, *g, v, min_nat(k as nat, want), (fuel - 1) as nat) == Some(seg),
        seg.len() <= want,
    ensures
        eval(arena, env, Closed::Builtin(Builtin::Ref(Ref::Limit(n, g))), v, want, fuel) == Some(
            seg,
        ),
{
    let fl = (fuel - 1) as nat;
    let cs = seq![Ok::<ValS, Error>(ValS::Num(k as int))];
    assert(eval(arena, env, *n, v, full_demand(), fl) == Some(cs));
    assert(as_count(cs.first()->Ok_0) == Ok::<nat, Error>(k as nat));
    assert(cs.drop_first() =~= Seq::<ValRS>::empty());
    let left = if seg.len() < want {
        (want - seg.len()) as nat
    } else {
        0
    };
    assert(limit_items(arena, env, cs.drop_first(), *g, v, left, fl) == Some(
        Seq::<ValRS>::empty(),
    ));
    assert(limit_items(arena, env, cs, *g, v, want, fl) == Some(seg + Seq::<ValRS>::empty()));
    assert(seg + Seq::<ValRS>::empty() =~= seg);
    assert(eval_ref(arena, env, Ref::Limit(n, g), v, want, fl) == Some(seg));
}

/// The fan-out law of `fold`: advancing the concatenation of two
/// accumulator sets advances each independently and concatenates; in
/// particular the result count is the sum of the two independent counts.
pub proof fn lemma_fold_step_fanout(
    arena: Seq<Closed>,
    env: Seq<ClosureS>,
    upd: Closed,
    a1: Seq<ValS>,
    a2: Seq<ValS>,
    x: ValS,
    fuel: nat,
    r1: Seq<ValS>,
    r2: Seq<ValS>,
)
    requires
        fold_step_items(arena, env, upd, a1, x, fuel) == Some(Ok::<Seq<ValS>, Error>(r1)),
        fold_step_items(arena, env, upd, a2, x, fuel) == Some(Ok::<Seq<ValS>, Error>(r2)),
    ensures
        fold_step_items(arena, env, upd, a1 + a2, x, fuel) == Some(Ok::<Seq<ValS>, Error>(r1 + r2)),
    decreases a1.len(),
{
    if a1.len() == 0 {
        assert(a1 + a2 =~= a2);
        assert(r1 =~= Seq::<ValS>::empty());
        assert(r1 + r2 =~= r2);
    } else {
        let rest1 = fold_step_items(arena, env, upd, a1.drop_first(), x, fuel);
        match eval(arena, env, upd, fold_obj(a1.first(), x), full_demand(), fuel) {
            None => {
                assert(false);
            },
            Some(ys) => {
                match collect_vals(ys) {
                    Err(_) => {
                        assert(false);
                    },
                    Ok(vs) => {
                        let tail1 = rest1->Some_0->Ok_0;
                        assert(r1 == vs + tail1);
                        lemma_fold_step_fanout(
                            arena,
                            env,
                            upd,
                            a1.drop_first(),
                            a2,
                            x,
                            fuel,
                            tail1,
                            r2,
                        );
                        assert((a1 + a2).first() == a1.first());
                        assert((a1 + a2).drop_first() =~= a1.drop_first() + a2);
                        assert(vs + (tail1 + r2) =~= (vs + tail1) + r2);
                    },
                }
            },
        }
    }
}

/// The fan-out law for the whole fold: folding the concatenation of two
/// accumulator sets over a source folds each independently.
pub proof fn lemma_fold_fanout(
    arena: Seq<Closed>,
    env: Seq<ClosureS>,
    upd: Closed,
    a1: Seq<ValS>,
    a2: Seq<ValS>,
    xs: Seq<ValRS>,
    fuel: nat,
    r1: Seq<ValS>,
    r2: Seq<ValS>,
)
    requires
        fold_items(arena, env, upd, a1, xs, fuel) == Some(Ok::<Seq<ValS>, Error>(r1)),
        fold_items(arena, env, upd, a2, xs, fuel) == Some(Ok::<Seq<ValS>, Error>(r2)),
    ensures
        fold_items(arena, env, upd, a1 + a2, xs, fuel) == Some(Ok::<Seq<ValS>, Error>(r1 + r2)),
    decreases xs.len(),
{
    if xs.len() == 0 {
        assert(r1 == a1 && r2 == a2);
    } else {
        match xs.first() {
            Err(_) => {
                assert(false);
            },
            Ok(x) => {
                match fold_step_items(arena, env, upd, a1, x, fuel) {
                    Some(Ok(b1)) => {
                        match fold_step_items(arena, env, upd, a2, x, fuel) {
                            Some(Ok(b2)) => {
                                lemma_fold_step_fanout(
                                    arena,
                                    env,
                                    upd,
                                    a1,
                                    a2,
                                    x,
                                    fuel,
                                    b1,
                                    b2,
                                );
                                lemma_fold_fanout(
                                    arena,
                                    env,
                                    upd,
                                    b1,
                                    b2,
                                    xs.drop_first(),
                                    fuel,
                                    r1,
                                    r2,
                                );
                            },
                            _ => {
                                assert(false);
                            },
                        }
                    },
                    _ => {
                        assert(false);
                    },
                }
            },
        }
    }
}

/// A fold whose update filter yields exactly one value per step is a
/// classic left fold: one accumulator in, one accumulator out, the
/// update's single result.
pub proof fn lemma_fold_step_singleton(
    arena: Seq<Closed>,
    env: Seq<ClosureS>,
    upd: Closed,
    a: ValS,
    x: ValS,
    fuel: nat,
    y: ValS,
)
    requires
        (match eval(arena, env, upd, fold_obj(a, x), full_demand(), fuel) {
            Some(ys) => collect_vals(ys) == Ok::<Seq<ValS>, Error>(seq![y]),
            None => false,
        }),
    ensures
        fold_step_items(arena, env, upd, seq![a], x, fuel) == Some(Ok::<Seq<ValS>, Error>(
            seq![y],
        )),
{
    let accs = seq![a];
    assert(accs.first() == a);
    assert(accs.drop_first() =~= Seq::<ValS>::empty());
    assert(fold_step_items(arena, env, upd, accs.drop_first(), x, fuel) == Some(Ok::<
        Seq<ValS>,
        Error,
    >(Seq::<ValS>::empty())));
    assert(seq![y] + Seq::<ValS>::empty() =~= seq![y]);
}

/// The identity laws of `combine`: `Null` is its identity element on
/// either side.
pub proof fn lemma_combine_null_identity(v: ValS)
    ensures
        combine_of(ValS::Null, v) == Ok::<ValS, Error>(v),
        combine_of(v, ValS::Null) == Ok::<ValS, Error>(v),
{
}

/// What an atomic builtin yields never depends on anything but the
/// operation and the input; in particular `null`, `true` and `false`
/// ignore the input entirely.
pub proof fn lemma_new_constant(v: ValS, w: ValS)
    ensures
        new_of(New::Null, v) == new_of(New::Null, w),
        new_of(New::True, v) == new_of(New::True, w),
        new_of(New::False, v) == new_of(New::False, w),
{
}

/// `select` never yields more than asked for.
pub proof fn lemma_select_items_len(xs: Seq<ValRS>, v: ValS, want: nat)
    ensures
        select_items(xs, v, want).len() <= want,
    decreases xs.len(),
{
    if want == 0 || xs.len() == 0 {
    } else {
        match xs.first() {
            Ok(t) => {
                if truthy(t) {
                    lemma_select_items_len(xs.drop_first(), v, (want - 1) as nat);
                } else {
                    lemma_select_items_len(xs.drop_first(), v, want);
                }
            },
            Err(_) => {
                lemma_select_items_len(xs.drop_first(), v, (want - 1) as nat);
            },
        }
    }
}

/// `last` yields at most one item.
pub proof fn lemma_last_items_len(xs: Seq<ValRS>)
    ensures
        last_items(xs).len() <= 1,
    decreases xs.len(),
{
    if xs.len() == 0 {
    } else {
        match xs.first() {
            Err(_) => {
            },
            Ok(_) => {
                if xs.len() == 1 {
                } else {
                    lemma_last_items_len(xs.drop_first());
                }
            },
        }
    }
}

/// A stream a filter produces never holds more items than the demand
/// asked for; in particular `limit(n, f)` yields at most `n` results and
/// `first(f)` at most one.
pub proof fn lemma_eval_len(
    arena: Seq<Closed>,
    env: Seq<ClosureS>,
    f: Closed,
    v: ValS,
    want: nat,
    fuel: nat,
)
    ensures
        (match eval(arena, env, f, v, want, fuel) {
            Some(xs) => xs.len() <= want,
            None => true,
        }),
    decreases fuel, 0int, 0int,
{
    if fuel == 0 || want == 0 {
    } else {
        let fl = (fuel - 1) as nat;
        match &f {
            Closed::Id => {
            },
            Closed::Lit(_) => {
            },
            Closed::Builtin(b) => {
                if *b is Ref {
                    lemma_eval_ref_len(arena, env, b->Ref_0, v, want, fl);
                }
            },
            Closed::Call(i, ops) => {
                if *i < arena.len() {
                    lemma_eval_len(arena, call_env(env, ops@), arena[*i as int], v, want, fl);
                }
            },
            Closed::Arg(i) => {
                if *i < env.len() {
                    lemma_eval_len(arena, env[*i as int].env, env[*i as int].node, v, want, fl);
                }
            },
        }
    }
}

/// The demand bound for each generator builtin.
pub proof fn lemma_eval_ref_len(
    arena: Seq<Closed>,
    env: Seq<ClosureS>,
    r: Ref<Rc<Closed>>,
    v: ValS,
    want: nat,
    fuel: nat,
)
    requires
        want >= 1,
    ensures
        (match eval_ref(arena, env, r, v, want, fuel) {
            Some(xs) => xs.len() <= want,
            None => true,
        }),
    decreases fuel, 4int, 0int,
{
    match &r {
        Ref::Empty => {
        },
        Ref::Repeat(g) => {
            if eval(arena, env, deref_node(g), v, full_demand(), fuel) is Some {
                let xs = eval(arena, env, deref_node(g), v, full_demand(), fuel)->Some_0;
                if xs.len() > 0 {
                    lemma_repeat_items_len(xs, 0, want, fuel);
                }
            }
        },
        Ref::First(g) => {
            lemma_eval_len(arena, env, deref_node(g), v, 1, fuel);
        },
        Ref::Last(g) => {
            if eval(arena, env, deref_node(g), v, full_demand(), fuel) is Some {
                lemma_last_items_len(eval(arena, env, deref_node(g), v, full_demand(), fuel)->Some_0);
            }
        },
        Ref::Select(g) => {
            if eval(arena, env, deref_node(g), v, full_demand(), fuel) is Some {
                lemma_select_items_len(
                    eval(arena, env, deref_node(g), v, full_demand(), fuel)->Some_0,
                    v,
                    want,
                );
            }
        },
        Ref::Limit(n, g) => {
            if eval(arena, env, deref_node(n), v, full_demand(), fuel) is Some {
                lemma_limit_items_len(
                    arena,
                    env,
                    eval(arena, env, deref_node(n), v, full_demand(), fuel)->Some_0,
                    deref_node(g),
                    v,
                    want,
                    fuel,
                );
            }
        },
        Ref::Recurse(g) => {
            lemma_eval_recurse_len(arena, env, deref_node(g), v, want, fuel);
        },
        Ref::Fold(_, _, _) => {
        },
    }
}

/// The demand bound for a cycled stream.
pub proof fn lemma_repeat_items_len(xs: Seq<ValRS>, idx: int, want: nat, fuel: nat)
    ensures
        (match repeat_items(xs, idx, want, fuel) {
            Some(out) => out.len() <= want,
            None => true,
        }),
    decreases fuel, 1int, 0int,
{
    if want == 0 || xs.len() == 0 || fuel == 0 {
    } else {
        let next = if idx + 1 < xs.len() {
            idx + 1
        } else {
            0
        };
        lemma_repeat_items_len(xs, next, (want - 1) as nat, (fuel - 1) as nat);
    }
}

/// The demand bound for `limit`'s count-by-count output.
pub proof fn lemma_limit_items_len(
    arena: Seq<Closed>,
    env: Seq<ClosureS>,
    cs: Seq<ValRS>,
    g: Closed,
    v: ValS,
    want: nat,
    fuel: nat,
)
    ensures
        (match limit_items(arena, env, cs, g, v, want, fuel) {
            Some(out) => out.len() <= want,
            None => true,
        }),
    decreases fuel, 1int, cs.len(),
{
    if want == 0 || cs.len() == 0 {
    } else {
        match cs.first() {
            Err(_) => {
                lemma_limit_items_len(arena, env, cs.drop_first(), g, v, (want - 1) as nat, fuel);
            },
            Ok(c) => {
                match as_count(c) {
                    Err(_) => {
                        lemma_limit_items_len(
                            arena,
                            env,
                            cs.drop_first(),
                            g,
                            v,
                            (want - 1) as nat,
                            fuel,
                        );
                    },
                    Ok(k) => {
                        let w = if k < want {
                            k
                        } else {
                            want
                        };
                        lemma_eval_len(arena, env, g, v, w, fuel);
                        if eval(arena, env, g, v, w, fuel) is Some {
                            let seg = eval(arena, env, g, v, w, fuel)->Some_0;
                            let left = if seg.len() < want {
                                (want - seg.len()) as nat
                            } else {
                                0
                            };
                            lemma_limit_items_len(arena, env, cs.drop_first(), g, v, left, fuel);
                        }
                    },
                }
            },
        }
    }
}

/// The demand bound for `recurse`.
pub proof fn lemma_eval_recurse_len(
    arena: Seq<Closed>,
    env: Seq<ClosureS>,
    g: Closed,
    v: ValS,
    want: nat,
    fuel: nat,
)
    ensures
        (match eval_recurse(arena, env, g, v, want, fuel) {
            Some(out) => out.len() <= want,
            None => true,
        }),
    decreases fuel, 2int, 0int,
{
    if want == 0 || fuel == 0 {
    } else {
        let fl = (fuel - 1) as nat;
        if eval(arena, env, g, v, full_demand(), fl) is Some {
            lemma_recurse_items_len(
                arena,
                env,
                g,
                eval(arena, env, g, v, full_demand(), fl)->Some_0,
                (want - 1) as nat,
                fl,
            );
        }
    }
}

/// The demand bound for one recursion expansion.
pub proof fn lemma_recurse_items_len(
    arena: Seq<Closed>,
    env: Seq<ClosureS>,
    g: Closed,
    xs: Seq<ValRS>,
    want: nat,
    fuel: nat,
)
    ensures
        (match recurse_items(arena, env, g, xs, want, fuel) {
            Some(out) => out.len() <= want,
            None => true,
        }),
    decreases fuel, 3int, xs.len(),
{
    if want == 0 || xs.len() == 0 {
    } else {
        match xs.first() {
            Err(_) => {
            },
            Ok(w) => {
                lemma_eval_recurse_len(arena, env, g, w, want, fuel);
                if eval_recurse(arena, env, g, w, want, fuel) is Some {
                    let ys = eval_recurse(arena, env, g, w, want, fuel)->Some_0;
                    let left = if ys.len() < want {
                        (want - ys.len()) as nat
                    } else {
                        0
                    };
                    lemma_recurse_items_len(arena, env, g, xs.drop_first(), left, fuel);
                }
            },
        }
    }
}

/// Taking a bounded number of items distributes over concatenation.
pub proof fn lemma_take_want_concat(a: Seq<ValRS>, b: Seq<ValRS>, w: nat)
    requires
        a.len() <= w,
    ensures
        take_want(a + b, w) == a + take_want(b, (w - a.len()) as nat),
{
    let r = (w - a.len()) as nat;
    if r < b.len() {
        assert(take_want(a + b, w) =~= a + b.take(r as int));
    } else {
        assert(take_want(a + b, w) =~= a + b);
    }
}

/// A nested bounded take is one bounded take.
pub proof fn lemma_take_want_twice(s: Seq<ValRS>, w1: nat, w2: nat)
    requires
        w1 <= w2,
    ensures
        take_want(take_want(s, w2), w1) == take_want(s, w1),
{
    if w1 < s.len() {
        assert(take_want(take_want(s, w2), w1) =~= s.take(w1 as int));
    } else {
        assert(take_want(take_want(s, w2), w1) =~= take_want(s, w1));
    }
}

/// A cycled stream emits exactly as many items as were asked, while the
/// fuel lasts.
pub proof fn lemma_repeat_items_exact(xs: Seq<ValRS>, idx: int, want: nat, fuel: nat)
    requires
        xs.len() > 0,
        repeat_items(xs, idx, want, fuel) is Some,
    ensures
        repeat_items(xs, idx, want, fuel)->Some_0.len() == want,
    decreases fuel, 1int, 0int,
{
    if want == 0 || fuel == 0 {
    } else {
        let next = if idx + 1 < xs.len() {
            idx + 1
        } else {
            0
        };
        lemma_repeat_items_exact(xs, next, (want - 1) as nat, (fuel - 1) as nat);
    }
}

/// A smaller demand on a cycled stream yields a prefix of a larger one.
pub proof fn lemma_repeat_items_prefix(xs: Seq<ValRS>, idx: int, w1: nat, w2: nat, fuel: nat)
    requires
        w1 <= w2,
        xs.len() > 0,
        repeat_items(xs, idx, w2, fuel) is Some,
    ensures
        repeat_items(xs, idx, w1, fuel) == Some(take_want(repeat_items(xs, idx, w2, fuel)->Some_0, w1)),
    decreases fuel, 1int, 0int,
{
    let out2 = repeat_items(xs, idx, w2, fuel)->Some_0;
    if w1 == 0 {
        assert(take_want(out2, 0) =~= Seq::<ValRS>::empty());
    } else {
        let next = if idx + 1 < xs.len() {
            idx + 1
        } else {
            0
        };
        let fl = (fuel - 1) as nat;
        lemma_repeat_items_prefix(xs, next, (w1 - 1) as nat, (w2 - 1) as nat, fl);
        let rest2 = repeat_items(xs, next, (w2 - 1) as nat, fl)->Some_0;
        assert(out2 == seq![xs[idx]] + rest2);
        lemma_take_want_concat(seq![xs[idx]], rest2, w1);
    }
}

/// A smaller demand on `select` yields a prefix of a larger one.
pub proof fn lemma_select_items_prefix(xs: Seq<ValRS>, v: ValS, w1: nat, w2: nat)
    requires
        w1 <= w2,
    ensures
        select_items(xs, v, w1) == take_want(select_items(xs, v, w2), w1),
    decreases xs.len(),
{
    if w1 == 0 {
        assert(take_want(select_items(xs, v, w2), 0) =~= Seq::<ValRS>::empty());
    } else if xs.len() == 0 {
    } else {
        match xs.first() {
            Ok(t) => {
                if truthy(t) {
                    lemma_select_items_prefix(xs.drop_first(), v, (w1 - 1) as nat, (w2 - 1) as nat);
                    lemma_take_want_concat(
                        seq![Ok::<ValS, Error>(v)],
                        select_items(xs.drop_first(), v, (w2 - 1) as nat),
                        w1,
                    );
                } else {
                    lemma_select_items_prefix(xs.drop_first(), v, w1, w2);
                }
            },
            Err(e) => {
                lemma_select_items_prefix(xs.drop_first(), v, (w1 - 1) as nat, (w2 - 1) as nat);
                lemma_take_want_concat(
                    seq![Err::<ValS, Error>(e)],
                    select_items(xs.drop_first(), v, (w2 - 1) as nat),
                    w1,
                );
            },
        }
    }
}

/// The demand is a true prefix bound: asking a filter for fewer items
/// yields exactly the prefix of what asking for more yields. With
/// [`lemma_eval_len`] this pins `limit` and `first` down completely:
/// `limit(n, f)` yields exactly the first `min(n, count)` of `f`'s
/// results, in `f`'s order, and `first(f)` exactly the first one.
pub proof fn lemma_eval_prefix(
    arena: Seq<Closed>,
    env: Seq<ClosureS>,
    f: Closed,
    v: ValS,
    w1: nat,
    w2: nat,
    fuel: nat,
)
    requires
        w1 <= w2,
        eval(arena, env, f, v, w2, fuel) is Some,
    ensures
        eval(arena, env, f, v, w1, fuel) == Some(take_want(eval(arena, env, f, v, w2, fuel)->Some_0, w1)),
    decreases fuel, 0int, 0int,
{
    let out2 = eval(arena, env, f, v, w2, fuel)->Some_0;
    let fl = (fuel - 1) as nat;
    if w1 == 0 {
        assert(take_want(out2, 0) =~= Seq::<ValRS>::empty());
    } else {
        match &f {
            Closed::Id => {
                assert(take_want(out2, w1) =~= out2);
            },
            Closed::Lit(_) => {
                assert(take_want(out2, w1) =~= out2);
            },
            Closed::Builtin(b) => {
                if *b is Ref {
                    lemma_eval_ref_prefix(arena, env, b->Ref_0, v, w1, w2, fl);
                } else {
                    assert(take_want(out2, w1) =~= out2);
                }
            },
            Closed::Call(i, ops) => {
                if *i < arena.len() {
                    lemma_eval_prefix(arena, call_env(env, ops@), arena[*i as int], v, w1, w2, fl);
                } else {
                    assert(take_want(out2, w1) =~= out2);
                }
            },
            Closed::Arg(i) => {
                if *i < env.len() {
                    lemma_eval_prefix(arena, env[*i as int].env, env[*i as int].node, v, w1, w2, fl);
                } else {
                    assert(take_want(out2, w1) =~= out2);
                }
            },
        }
    }
}

/// The prefix bound for each generator builtin.
pub proof fn lemma_eval_ref_prefix(
    arena: Seq<Closed>,
    env: Seq<ClosureS>,
    r: Ref<Rc<Closed>>,
    v: ValS,
    w1: nat,
    w2: nat,
    fuel: nat,
)
    requires
        1 <= w1 <= w2,
        eval_ref(arena, env, r, v, w2, fuel) is Some,
    ensures
        eval_ref(arena, env, r, v, w1, fuel) == Some(take_want(eval_ref(arena, env, r, v, w2, fuel)->Some_0, w1)),
    decreases fuel, 4int, 0int,
{
    let out2 = eval_ref(arena, env, r, v, w2, fuel)->Some_0;
    match &r {
        Ref::Empty => {
            assert(take_want(out2, w1) =~= out2);
        },
        Ref::Repeat(g) => {
            let xs = eval(arena, env, deref_node(g), v, full_demand(), fuel)->Some_0;
            if xs.len() == 0 {
                assert(take_want(out2, w1) =~= out2);
            } else {
                lemma_repeat_items_prefix(xs, 0, w1, w2, fuel);
            }
        },
        Ref::First(g) => {
            lemma_eval_len(arena, env, deref_node(g), v, 1, fuel);
            assert(take_want(out2, w1) =~= out2);
        },
        Ref::Last(g) => {
            lemma_last_items_len(eval(arena, env, deref_node(g), v, full_demand(), fuel)->Some_0);
            assert(take_want(out2, w1) =~= out2);
        },
        Ref::Select(g) => {
            lemma_select_items_prefix(
                eval(arena, env, deref_node(g), v, full_demand(), fuel)->Some_0,
                v,
                w1,
                w2,
            );
        },
        Ref::Limit(n, g) => {
            lemma_limit_items_prefix(
                arena,
                env,
                eval(arena, env, deref_node(n), v, full_demand(), fuel)->Some_0,
                deref_node(g),
                v,
                w1,
                w2,
                fuel,
            );
        },
        Ref::Recurse(g) => {
            lemma_eval_recurse_prefix(arena, env, deref_node(g), v, w1, w2, fuel);
        },
        Ref::Fold(_, _, _) => {
            let accs2 = fold_items(
                arena,
                env,
                deref_node(&r->Fold_2),
                collect_vals(
                    eval(arena, env, deref_node(&r->Fold_1), v, full_demand(), fuel)->Some_0,
                )->Ok_0,
                eval(arena, env, deref_node(&r->Fold_0), v, full_demand(), fuel)->Some_0,
                fuel,
            );
            if accs2 is Some && accs2->Some_0 is Ok {
                lemma_take_want_twice(
                    accs2->Some_0->Ok_0.map_values(|a: ValS| Ok::<ValS, Error>(a)),
                    w1,
                    w2,
                );
            } else {
                assert(take_want(out2, w1) =~= out2);
            }
        },
    }
}

/// The prefix bound for `limit`'s count-by-count output.
pub proof fn lemma_limit_items_prefix(
    arena: Seq<Closed>,
    env: Seq<ClosureS>,
    cs: Seq<ValRS>,
    g: Closed,
    v: ValS,
    w1: nat,
    w2: nat,
    fuel: nat,
)
    requires
        w1 <= w2,
        limit_items(arena, env, cs, g, v, w2, fuel) is Some,
    ensures
        limit_items(arena, env, cs, g, v, w1, fuel) == Some(take_want(limit_items(arena, env, cs, g, v, w2, fuel)->Some_0, w1)),
    decreases fuel, 1int, cs.len(),
{
    let out2 = limit_items(arena, env, cs, g, v, w2, fuel)->Some_0;
    if w1 == 0 {
        assert(take_want(out2, 0) =~= Seq::<ValRS>::empty());
    } else if cs.len() == 0 {
        assert(take_want(out2, w1) =~= out2);
    } else {
        match cs.first() {
            Err(e) => {
                lemma_limit_items_prefix(
                    arena,
                    env,
                    cs.drop_first(),
                    g,
                    v,
                    (w1 - 1) as nat,
                    (w2 - 1) as nat,
                    fuel,
                );
                lemma_take_want_concat(
                    seq![Err::<ValS, Error>(e)],
                    limit_items(arena, env, cs.drop_first(), g, v, (w2 - 1) as nat, fuel)->Some_0,
                    w1,
                );
            },
            Ok(c) => {
                match as_count(c) {
                    Err(e) => {
                        lemma_limit_items_prefix(
                            arena,
                            env,
                            cs.drop_first(),
                            g,
                            v,
                            (w1 - 1) as nat,
                            (w2 - 1) as nat,
                            fuel,
                        );
                        lemma_take_want_concat(
                            seq![Err::<ValS, Error>(e)],
                            limit_items(
                                arena,
                                env,
                                cs.drop_first(),
                                g,
                                v,
                                (w2 - 1) as nat,
                                fuel,
                            )->Some_0,
                            w1,
                        );
                    },
                    Ok(k) => {
                        let v2 = if k < w2 {
                            k
                        } else {
                            w2
                        };
                        let v1 = if k < w1 {
                            k
                        } else {
                            w1
                        };
                        let seg2 = eval(arena, env, g, v, v2, fuel)->Some_0;
                        lemma_eval_len(arena, env, g, v, v2, fuel);
                        lemma_eval_prefix(arena, env, g, v, v1, v2, fuel);
                        let seg1 = take_want(seg2, v1);
                        let left2 = if seg2.len() < w2 {
                            (w2 - seg2.len()) as nat
                        } else {
                            0
                        };
                        if seg2.len() >= w1 {
                            assert(v1 == w1);
                            assert(seg1 =~= seg2.take(w1 as int));
                            assert(seg1.len() == w1);
                            assert(limit_items(arena, env, cs.drop_first(), g, v, 0, fuel)
                                == Some(Seq::<ValRS>::empty()));
                            assert(limit_items(arena, env, cs, g, v, w1, fuel) == Some(
                                seg1 + Seq::<ValRS>::empty(),
                            ));
                            assert(seg1 + Seq::<ValRS>::empty() =~= take_want(out2, w1));
                        } else {
                            assert(seg1 =~= seg2);
                            let left1 = (w1 - seg2.len()) as nat;
                            lemma_limit_items_prefix(
                                arena,
                                env,
                                cs.drop_first(),
                                g,
                                v,
                                left1,
                                left2,
                                fuel,
                            );
                            let rest2 = limit_items(
                                arena,
                                env,
                                cs.drop_first(),
                                g,
                                v,
                                left2,
                                fuel,
                            )->Some_0;
                            assert(out2 == seg2 + rest2);
                            lemma_take_want_concat(seg2, rest2, w1);
                        }
                    },
                }
            },
        }
    }
}

/// The prefix bound for `recurse`.
pub proof fn lemma_eval_recurse_prefix(
    arena: Seq<Closed>,
    env: Seq<ClosureS>,
    g: Closed,
    v: ValS,
    w1: nat,
    w2: nat,
    fuel: nat,
)
    requires
        1 <= w1 <= w2,
        eval_recurse(arena, env, g, v, w2, fuel) is Some,
    ensures
        eval_recurse(arena, env, g, v, w1, fuel) == Some(take_want(eval_recurse(arena, env, g, v, w2, fuel)->Some_0, w1)),
    decreases fuel, 2int, 0int,
{
    let out2 = eval_recurse(arena, env, g, v, w2, fuel)->Some_0;
    let fl = (fuel - 1) as nat;
    let xs = eval(arena, env, g, v, full_demand(), fl)->Some_0;
    lemma_recurse_items_prefix(arena, env, g, xs, (w1 - 1) as nat, (w2 - 1) as nat, fl);
    lemma_take_want_concat(
        seq![Ok::<ValS, Error>(v)],
        recurse_items(arena, env, g, xs, (w2 - 1) as nat, fl)->Some_0,
        w1,
    );
}

/// The prefix bound for one recursion expansion.
pub proof fn lemma_recurse_items_prefix(
    arena: Seq<Closed>,
    env: Seq<ClosureS>,
    g: Closed,
    xs: Seq<ValRS>,
    w1: nat,
    w2: nat,
    fuel: nat,
)
    requires
        w1 <= w2,
        recurse_items(arena, env, g, xs, w2, fuel) is Some,
    ensures
        recurse_items(arena, env, g, xs, w1, fuel) == Some(take_want(recurse_items(arena, env, g, xs, w2, fuel)->Some_0, w1)),
    decreases fuel, 3int, xs.len(),
{
    let out2 = recurse_items(arena, env, g, xs, w2, fuel)->Some_0;
    if w1 == 0 {
        assert(take_want(out2, 0) =~= Seq::<ValRS>::empty());
    } else if xs.len() == 0 {
        assert(take_want(out2, w1) =~= out2);
    } else {
        match xs.first() {
            Err(_) => {
                assert(take_want(out2, w1) =~= out2);
            },
            Ok(w) => {
                let ys2 = eval_recurse(arena, env, g, w, w2, fuel)->Some_0;
                lemma_eval_recurse_len(arena, env, g, w, w2, fuel);
                lemma_eval_recurse_prefix(arena, env, g, w, w1, w2, fuel);
                let ys1 = take_want(ys2, w1);
                let left2 = if ys2.len() < w2 {
                    (w2 - ys2.len()) as nat
                } else {
                    0
                };
                if ys2.len() >= w1 {
                    assert(ys1 =~= ys2.take(w1 as int));
                    assert(ys1.len() == w1);
                    assert(recurse_items(arena, env, g, xs.drop_first(), 0, fuel) == Some(
                        Seq::<ValRS>::empty(),
                    ));
                    assert(recurse_items(arena, env, g, xs, w1, fuel) == Some(
                        ys1 + Seq::<ValRS>::empty(),
                    ));
                    assert(ys1 + Seq::<ValRS>::empty() =~= take_want(out2, w1));
                } else {
                    assert(ys1 =~= ys2);
                    let left1 = (w1 - ys2.len()) as nat;
                    lemma_recurse_items_prefix(
                        arena,
                        env,
                        g,
                        xs.drop_first(),
                        left1,
                        left2,
                        fuel,
                    );
                    let rest2 = recurse_items(arena, env, g, xs.drop_first(), left2, fuel)->Some_0;
                    assert(out2 == ys2 + rest2);
                    lemma_take_want_concat(ys2, rest2, w1);
                }
            },
        }
    }
}

/// `limit` with a literal count yields exactly the first
/// `min(count, number of results)` results of its filter, in the
/// filter's own order.
pub proof fn lemma_limit_counts_results(
    arena: Seq<Closed>,
    env: Seq<ClosureS>,
    n: Rc<Closed>,
    g: Rc<Closed>,
    v: ValS,
    k: i64,
    fuel: nat,
    xs: Seq<ValRS>,
)
    requires
        *n == Closed::Lit(crate::val::Val::Num(k)),
        0 <= k <= usize::MAX,
        fuel >= 2,
        eval(arena, env, deref_node(&g), v, full_demand(), (fuel - 1) as nat) == Some(xs),
    ensures
        eval(
            arena,
            env,
            Closed::Builtin(Builtin::Ref(Ref::Limit(n, g))),
            v,
            full_demand(),
            fuel,
        ) == Some(take_want(xs, k as nat)),
        take_want(xs, k as nat).len() == min_nat(k as nat, xs.len()),
{
    let fl = (fuel - 1) as nat;
    let cs = seq![Ok::<ValS, Error>(ValS::Num(k as int))];
    assert(eval(arena, env, *n, v, full_demand(), fl) == Some(cs));
    assert(as_count(cs.first()->Ok_0) == Ok::<nat, Error>(k as nat));
    assert(cs.drop_first() =~= Seq::<ValRS>::empty());
    lemma_eval_prefix(arena, env, deref_node(&g), v, k as nat, full_demand(), fl);
    let seg = take_want(xs, k as nat);
    lemma_eval_len(arena, env, deref_node(&g), v, full_demand(), fl);
    assert(xs.len() <= full_demand());
    if (k as nat) < full_demand() {
        lemma_eval_len(arena, env, deref_node(&g), v, k as nat, fl);
        assert(eval(arena, env, deref_node(&g), v, k as nat, fl) == Some(seg));
        assert(seg.len() <= k as nat);
    } else {
        assert(take_want(xs, k as nat) =~= xs);
        assert(eval(arena, env, deref_node(&g), v, k as nat, fl) == Some(seg));
        assert(seg.len() <= full_demand());
    }
    if seg.len() < full_demand() {
        assert(limit_items(arena, env, cs.drop_first(), deref_node(&g), v, (full_demand()
            - seg.len()) as nat, fl) == Some(Seq::<ValRS>::empty()));
    } else {
        assert(limit_items(arena, env, cs.drop_first(), deref_node(&g), v, 0, fl) == Some(
            Seq::<ValRS>::empty(),
        ));
    }
    assert(limit_items(arena, env, cs, deref_node(&g), v, full_demand(), fl) == Some(
        seg + Seq::<ValRS>::empty(),
    ));
    assert(seg + Seq::<ValRS>::empty() =~= seg);
    assert(eval_ref(arena, env, Ref::Limit(n, g), v, full_demand(), fl) == Some(seg));
}

/// On a filter with exactly one (successful) result, `first` and `last`
/// yield the same single-item stream; with more results they differ
/// whenever the first and final results differ.
pub proof fn lemma_first_last_agree_on_single(
    arena: Seq<Closed>,
    env: Seq<ClosureS>,
    g: Rc<Closed>,
    v: ValS,
    want: nat,
    fuel: nat,
    xs: Seq<ValRS>,
)
    requires
        want >= 1,
        fuel >= 2,
        eval(arena, env, deref_node(&g), v, full_demand(), (fuel - 1) as nat) == Some(xs),
        xs.len() == 1,
        xs.first() is Ok,
    ensures
        eval(arena, env, Closed::Builtin(Builtin::Ref(Ref::First(g))), v, want, fuel) == Some(xs),
        eval(arena, env, Closed::Builtin(Builtin::Ref(Ref::Last(g))), v, want, fuel) == Some(xs),
{
    let fl = (fuel - 1) as nat;
    lemma_eval_prefix(arena, env, deref_node(&g), v, 1, full_demand(), fl);
    lemma_first_last_single(xs);
    assert(eval_ref(arena, env, Ref::First(g), v, want, fl) == Some(take_want(xs, 1)));
    assert(eval_ref(arena, env, Ref::Last(g), v, want, fl) == Some(last_items(xs)));
}

/// A fold whose update yields exactly one value at every step is a
/// classic single-threaded left fold: the accumulator trajectory
/// `accs[0], accs[1], ..` advances one value per source item, and the
/// fold's sole result is the trajectory's final value.
pub proof fn lemma_fold_classic(
    arena: Seq<Closed>,
    env: Seq<ClosureS>,
    upd: &Closed,
    xs: Seq<ValS>,
    accs: Seq<ValS>,
    fuel: nat,
)
    requires
        accs.len() == xs.len() + 1,
        forall|j: int|
            0 <= j < xs.len() ==> (match eval(
                arena,
                env,
                *upd,
                fold_obj(accs[j], #[trigger] xs[j]),
                full_demand(),
                fuel,
            ) {
                Some(ys) => collect_vals(ys) == Ok::<Seq<ValS>, Error>(seq![accs[j + 1]]),
                None => false,
            }),
    ensures
        fold_items(
            arena,
            env,
            *upd,
            seq![accs.first()],
            xs.map_values(|x: ValS| Ok::<ValS, Error>(x)),
            fuel,
        ) == Some(Ok::<Seq<ValS>, Error>(seq![accs.last()])),
    decreases xs.len(),
{
    let stream = xs.map_values(|x: ValS| Ok::<ValS, Error>(x));
    if xs.len() == 0 {
        assert(stream =~= Seq::<ValRS>::empty());
        assert(accs.first() == accs.last());
    } else {
        assert(stream.first() == Ok::<ValS, Error>(xs.first()));
        lemma_fold_step_singleton(arena, env, *upd, accs[0], xs[0], fuel, accs[1]);
        assert(fold_step_items(arena, env, *upd, seq![accs[0]], xs[0], fuel) == Some(Ok::<
            Seq<ValS>,
            Error,
        >(seq![accs[1]])));
        let xs2 = xs.drop_first();
        let accs2 = accs.drop_first();
        assert forall|j: int|
            0 <= j < xs2.len() implies (match eval(
            arena,
            env,
            *upd,
            fold_obj(accs2[j], #[trigger] xs2[j]),
            full_demand(),
            fuel,
        ) {
            Some(ys) => collect_vals(ys) == Ok::<Seq<ValS>, Error>(seq![accs2[j + 1]]),
            None => false,
        }) by {
            assert(xs2[j] == xs[j + 1]);
            assert(accs2[j] == accs[j + 1]);
            assert(accs2[j + 1] == accs[j + 2]);
        }
        lemma_fold_classic(arena, env, upd, xs2, accs2, fuel);
        assert(stream.drop_first() =~= xs2.map_values(|x: ValS| Ok::<ValS, Error>(x)));
        assert(accs2.first() == accs[1]);
        assert(accs2.last() == accs.last());
    }
}

/// The `fold` builtin with a single initial value and a single-valued
/// update is a classic left fold end to end: on a source stream of plain
/// values it yields exactly one result, the final accumulator of the
/// trajectory.
pub proof fn lemma_fold_builtin_classic(
    arena: Seq<Closed>,
    env: Seq<ClosureS>,
    src: Rc<Closed>,
    init: Rc<Closed>,
    upd: Rc<Closed>,
    v: ValS,
    xs: Seq<ValS>,
    accs: Seq<ValS>,
    want: nat,
    fuel: nat,
)
    requires
        want >= 1,
        fuel >= 2,
        accs.len() == xs.len() + 1,
        eval(arena, env, deref_node(&src), v, full_demand(), (fuel - 1) as nat) == Some(
            xs.map_values(|x: ValS| Ok::<ValS, Error>(x)),
        ),
        eval(arena, env, deref_node(&init), v, full_demand(), (fuel - 1) as nat) == Some(
            seq![Ok::<ValS, Error>(accs.first())],
        ),
        forall|j: int|
            0 <= j < xs.len() ==> (match eval(
                arena,
                env,
                deref_node(&upd),
                fold_obj(accs[j], #[trigger] xs[j]),
                full_demand(),
                (fuel - 1) as nat,
            ) {
                Some(ys) => collect_vals(ys) == Ok::<Seq<ValS>, Error>(seq![accs[j + 1]]),
                None => false,
            }),
    ensures
        eval(
            arena,
            env,
            Closed::Builtin(Builtin::Ref(Ref::Fold(src, init, upd))),
            v,
            want,
            fuel,
        ) == Some(seq![Ok::<ValS, Error>(accs.last())]),
{
    let fl = (fuel - 1) as nat;
    let stream = xs.map_values(|x: ValS| Ok::<ValS, Error>(x));
    let is = seq![Ok::<ValS, Error>(accs.first())];
    assert(is.drop_first() =~= Seq::<ValRS>::empty());
    assert(collect_vals(is.drop_first()) == Ok::<Seq<ValS>, Error>(Seq::<ValS>::empty()));
    assert(seq![accs.first()] + Seq::<ValS>::empty() =~= seq![accs.first()]);
    assert(collect_vals(is) == Ok::<Seq<ValS>, Error>(seq![accs.first()]));
    let gupd = deref_node(&upd);
    lemma_fold_classic(arena, env, &gupd, xs, accs, fl);
    assert(fold_items(arena, env, gupd, seq![accs.first()], stream, fl) == Some(Ok::<
        Seq<ValS>,
        Error,
    >(seq![accs.last()])));
    let out = seq![accs.last()].map_values(|a: ValS| Ok::<ValS, Error>(a));
    assert(out =~= seq![Ok::<ValS, Error>(accs.last())]);
    assert(take_want(out, want) =~= out);
    assert(eval_ref(arena, env, Ref::Fold(src, init, upd), v, want, fl) == Some(out));
}

} // verus!
