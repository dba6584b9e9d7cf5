use jaq_core::val::{Val, Tag, Error};
use jaq_core::filter::{Closed, PreFilter};
use jaq_core::functions::{Builtin, Ref};
use jaq_core::toplevel::{Definition, Definitions, Main, Module, ResolutionError};
use std::rc::Rc;

const FUEL: usize = 10_000;

fn num(n: i64) -> Val {
    Val::Num(n)
}

fn s(t: &str) -> String {
    t.to_string()
}

fn call(name: &str, ops: Vec<PreFilter>) -> PreFilter {
    PreFilter::Call(s(name), ops)
}

fn lit(v: Val) -> PreFilter {
    PreFilter::Lit(v)
}

fn empty_module() -> Module {
    Module::new(Definitions::new(vec![]))
}

/// Resolve a program with no definitions and run it on one input.
fn run(term: PreFilter, input: Val) -> Option<Vec<Result<Val, Error>>> {
    let main = Main { defs: Definitions::new(vec![]), term };
    let closed = main.open(empty_module()).unwrap();
    closed.run(&input, FUEL)
}

#[test]
fn identity_yields_the_input_once() {
    assert_eq!(run(PreFilter::Id, num(7)), Some(vec![Ok(num(7))]));
}

#[test]
fn literal_ignores_the_input() {
    assert_eq!(run(lit(num(3)), Val::Null), Some(vec![Ok(num(3))]));
}

#[test]
fn add_builtin_through_resolution() {
    let input = Val::Arr(vec![num(1), num(2), num(3)]);
    assert_eq!(run(call("add", vec![]), input), Some(vec![Ok(num(6))]));
}

#[test]
fn add_over_object_members() {
    let input = Val::Obj(vec![(s("a"), num(1))]);
    assert_eq!(run(call("add", vec![]), input), Some(vec![Ok(num(1))]));
}

#[test]
fn empty_yields_nothing() {
    assert_eq!(run(call("empty", vec![]), num(1)), Some(vec![]));
}

#[test]
fn select_true_is_the_identity_generator() {
    let f = call("select", vec![call("true", vec![])]);
    assert_eq!(run(f, num(42)), Some(vec![Ok(num(42))]));
}

#[test]
fn select_false_yields_nothing() {
    let f = call("select", vec![call("false", vec![])]);
    assert_eq!(run(f, num(42)), Some(vec![]));
    let g = call("select", vec![call("null", vec![])]);
    assert_eq!(run(g, num(42)), Some(vec![]));
}

#[test]
fn select_not_inverts_truthiness() {
    let f = call("select", vec![call("not", vec![])]);
    assert_eq!(run(f, Val::Bool(false)), Some(vec![Ok(Val::Bool(false))]));
    let g = call("select", vec![call("not", vec![])]);
    assert_eq!(run(g, num(0)), Some(vec![]));
}

#[test]
fn select_error_propagates_as_an_item() {
    let f = call("select", vec![call("add", vec![])]);
    assert_eq!(run(f, num(5)), Some(vec![Err(Error::Iterate(Tag::Num))]));
}

#[test]
fn first_of_repeat_terminates() {
    let f = call("first", vec![call("repeat", vec![lit(num(7))])]);
    assert_eq!(run(f, Val::Null), Some(vec![Ok(num(7))]));
}

#[test]
fn first_of_empty_yields_nothing() {
    let f = call("first", vec![call("empty", vec![])]);
    assert_eq!(run(f, Val::Null), Some(vec![]));
}

#[test]
fn last_takes_the_final_result() {
    let two = call("limit", vec![lit(num(2)), call("recurse", vec![call("length", vec![])])]);
    let f = call("last", vec![two]);
    assert_eq!(run(f, Val::Arr(vec![num(9)])), Some(vec![Ok(num(1))]));
}

#[test]
fn first_equals_last_iff_one_result() {
    let one = call("limit", vec![lit(num(1)), call("repeat", vec![lit(num(3))])]);
    let first = run(call("first", vec![one]), Val::Null);
    let one2 = call("limit", vec![lit(num(1)), call("repeat", vec![lit(num(3))])]);
    let last = run(call("last", vec![one2]), Val::Null);
    assert_eq!(first, last);
    assert_eq!(first, Some(vec![Ok(num(3))]));

    let two = call("limit", vec![lit(num(2)), call("recurse", vec![call("length", vec![])])]);
    let input = Val::Arr(vec![num(9)]);
    let first2 = run(call("first", vec![two]), input.dup());
    let two2 = call("limit", vec![lit(num(2)), call("recurse", vec![call("length", vec![])])]);
    let last2 = run(call("last", vec![two2]), input);
    assert_eq!(first2, Some(vec![Ok(Val::Arr(vec![num(9)]))]));
    assert_eq!(last2, Some(vec![Ok(num(1))]));
    assert_ne!(first2, last2);
}

#[test]
fn limit_zero_yields_nothing_even_on_repeat() {
    let f = call("limit", vec![lit(num(0)), call("repeat", vec![lit(num(1))])]);
    assert_eq!(run(f, Val::Null), Some(vec![]));
}

#[test]
fn limit_takes_min_of_count_and_results() {
    let f = call("limit", vec![lit(num(2)), call("repeat", vec![lit(num(1))])]);
    assert_eq!(run(f, Val::Null), Some(vec![Ok(num(1)), Ok(num(1))]));
    let g = call("limit", vec![lit(num(5)), lit(num(8))]);
    assert_eq!(run(g, Val::Null), Some(vec![Ok(num(8))]));
}

#[test]
fn limit_count_must_coerce() {
    let f = call("limit", vec![call("null", vec![]), lit(num(1))]);
    assert_eq!(run(f, Val::Null), Some(vec![Err(Error::Cast(Tag::Null))]));
    let g = call("limit", vec![lit(num(-1)), lit(num(1))]);
    assert_eq!(run(g, Val::Null), Some(vec![Err(Error::Cast(Tag::Num))]));
}

#[test]
fn recurse_yields_the_input_first() {
    let f = call("recurse", vec![call("empty", vec![])]);
    assert_eq!(run(f, num(0)), Some(vec![Ok(num(0))]));
}

#[test]
fn recurse_descends_depth_first() {
    let f = call("limit", vec![lit(num(4)), call("recurse", vec![call("length", vec![])])]);
    let input = Val::Arr(vec![num(5)]);
    assert_eq!(
        run(f, input),
        Some(vec![Ok(Val::Arr(vec![num(5)])), Ok(num(1)), Ok(num(1)), Ok(num(1))])
    );
}

#[test]
fn fold_is_a_left_fold_with_single_update() {
    let src = call("limit", vec![lit(num(2)), call("repeat", vec![lit(num(1))])]);
    let f = call("fold", vec![src, lit(num(0)), call("add", vec![])]);
    assert_eq!(run(f, Val::Null), Some(vec![Ok(num(2))]));
}

#[test]
fn fold_fans_out_over_multiple_initial_values() {
    let src = call("limit", vec![lit(num(2)), call("repeat", vec![lit(num(1))])]);
    let init = call("limit", vec![lit(num(2)), call("repeat", vec![lit(num(10))])]);
    let f = call("fold", vec![src, init, call("add", vec![])]);
    assert_eq!(run(f, Val::Null), Some(vec![Ok(num(12)), Ok(num(12))]));
}

#[test]
fn fold_aborts_on_source_error() {
    let src = call("add", vec![]);
    let f = call("fold", vec![src, lit(num(0)), call("add", vec![])]);
    assert_eq!(run(f, num(3)), Some(vec![Err(Error::Iterate(Tag::Num))]));
}

#[test]
fn unbound_name_fails_resolution_with_that_pair() {
    let main = Main { defs: Definitions::new(vec![]), term: call("nope", vec![PreFilter::Id]) };
    match main.open(empty_module()) {
        Err(e) => assert_eq!(e, ResolutionError::Unbound(s("nope"), 1)),
        Ok(_) => panic!("resolution should fail"),
    }
}

#[test]
fn arity_is_part_of_the_name() {
    let defs = Definitions::new(vec![Definition { name: s("f"), args: vec![], term: lit(num(1)) }]);
    let main = Main { defs, term: call("f", vec![PreFilter::Id]) };
    match main.open(empty_module()) {
        Err(e) => assert_eq!(e, ResolutionError::Unbound(s("f"), 1)),
        Ok(_) => panic!("resolution should fail"),
    }
}

#[test]
fn user_definition_resolves_and_runs() {
    let defs = Definitions::new(vec![Definition {
        name: s("seven"),
        args: vec![],
        term: lit(num(7)),
    }]);
    let main = Main { defs, term: call("seven", vec![]) };
    let closed = main.open(empty_module()).unwrap();
    assert_eq!(closed.run(&Val::Null, FUEL), Some(vec![Ok(num(7))]));
}

#[test]
fn filter_parameters_are_closures() {
    let defs = Definitions::new(vec![Definition {
        name: s("apply"),
        args: vec![s("f")],
        term: call("f", vec![]),
    }]);
    let main = Main { defs, term: call("apply", vec![call("add", vec![])]) };
    let closed = main.open(empty_module()).unwrap();
    let input = Val::Arr(vec![num(2), num(3)]);
    assert_eq!(closed.run(&input, FUEL), Some(vec![Ok(num(5))]));
}

#[test]
fn definitions_shadow_builtins() {
    let defs = Definitions::new(vec![Definition {
        name: s("add"),
        args: vec![],
        term: lit(num(9)),
    }]);
    let main = Main { defs, term: call("add", vec![]) };
    let closed = main.open(empty_module()).unwrap();
    assert_eq!(closed.run(&Val::Arr(vec![num(1)]), FUEL), Some(vec![Ok(num(9))]));
}

#[test]
fn module_definitions_are_available_to_main() {
    let module = Module::new(Definitions::new(vec![Definition {
        name: s("three"),
        args: vec![],
        term: lit(num(3)),
    }]));
    let main = Main { defs: Definitions::new(vec![]), term: call("three", vec![]) };
    let closed = main.open(module).unwrap();
    assert_eq!(closed.run(&Val::Null, FUEL), Some(vec![Ok(num(3))]));
}

#[test]
fn mutually_recursive_definitions_resolve() {
    let defs = Definitions::new(vec![
        Definition { name: s("a"), args: vec![], term: call("first", vec![call("b", vec![])]) },
        Definition { name: s("b"), args: vec![], term: call("first", vec![call("a", vec![])]) },
    ]);
    let main = Main { defs, term: call("a", vec![]) };
    let closed = main.open(empty_module()).unwrap();
    assert_eq!(closed.arena.len(), 2);
    // With no base case the recursion never produces a value: evaluation
    // reports fuel exhaustion rather than an answer.
    assert_eq!(closed.run(&Val::Null, 500), None);
}

#[test]
fn limit_guarded_recursion_terminates() {
    let defs = Definitions::new(vec![
        Definition {
            name: s("a"),
            args: vec![],
            term: call("limit", vec![lit(num(0)), call("b", vec![])]),
        },
        Definition {
            name: s("b"),
            args: vec![],
            term: call("limit", vec![lit(num(0)), call("a", vec![])]),
        },
    ]);
    let main = Main { defs, term: call("b", vec![]) };
    let closed = main.open(empty_module()).unwrap();
    assert_eq!(closed.run(&Val::Null, FUEL), Some(vec![]));
}

#[test]
fn builtin_map_instantiates_operands() {
    let b: Builtin<usize> = Builtin::Ref(Ref::Repeat(0));
    let ops = vec![Rc::new(Closed::Id)];
    match b.try_map(&ops) {
        Ok(Builtin::Ref(Ref::Repeat(f))) => assert!(matches!(*f, Closed::Id)),
        _ => panic!("expected a repeat over the operand"),
    }
}

#[test]
fn builtin_try_map_rejects_missing_operands() {
    let b: Builtin<usize> = Builtin::Ref(Ref::Limit(0, 1));
    let ops = vec![Rc::new(Closed::Id)];
    assert!(b.try_map(&ops).is_err());
    let b2: Builtin<usize> = Builtin::Ref(Ref::Limit(0, 1));
    let ops2 = vec![Rc::new(Closed::Id), Rc::new(Closed::Id)];
    assert!(b2.try_map(&ops2).is_ok());
}

#[test]
fn run_respects_fuel() {
    let f = call("repeat", vec![lit(num(1))]);
    assert_eq!(run(f, Val::Null), None);
}

#[test]
fn type_builtin_names_types() {
    assert_eq!(run(call("type", vec![]), Val::Obj(vec![])), Some(vec![Ok(Val::Str(s("object")))]));
    assert_eq!(run(call("type", vec![]), Val::Bool(true)), Some(vec![Ok(Val::Str(s("boolean")))]));
}

#[test]
fn length_of_boolean_is_an_error_item() {
    assert_eq!(run(call("length", vec![]), Val::Bool(true)), Some(vec![Err(Error::Length(Tag::Bool))]));
}

#[test]
fn repeat_of_an_empty_stream_is_empty() {
    let f = call("repeat", vec![call("empty", vec![])]);
    assert_eq!(run(f, Val::Null), Some(vec![]));
}

#[test]
fn limit_runs_once_per_count_value() {
    let counts = call("limit", vec![lit(num(2)), call("repeat", vec![lit(num(1))])]);
    let f = call("limit", vec![counts, lit(num(5))]);
    assert_eq!(run(f, Val::Null), Some(vec![Ok(num(5)), Ok(num(5))]));
}

#[test]
fn select_keeps_results_before_a_predicate_error() {
    // The predicate stream on input [] is: [] (truthy), null (falsy),
    // then an iteration error; the input emitted for the truthy result
    // stays in the output ahead of the error item.
    let f = call("select", vec![call("recurse", vec![call("add", vec![])])]);
    assert_eq!(
        run(f, Val::Arr(vec![])),
        Some(vec![Ok(Val::Arr(vec![])), Err(Error::Iterate(Tag::Null))])
    );
}

#[test]
fn fold_aborts_on_update_error() {
    let src = call("limit", vec![lit(num(1)), call("repeat", vec![lit(num(1))])]);
    let f = call("fold", vec![src, lit(Val::Bool(true)), call("add", vec![])]);
    assert_eq!(run(f, Val::Null), Some(vec![Err(Error::Combine(Tag::Bool, Tag::Num))]));
}

#[test]
fn fold_with_empty_source_yields_the_initial_values() {
    let f = call("fold", vec![call("empty", vec![]), lit(num(4)), call("add", vec![])]);
    assert_eq!(run(f, Val::Null), Some(vec![Ok(num(4))]));
}

#[test]
fn fold_with_empty_init_yields_nothing() {
    let src = call("limit", vec![lit(num(2)), call("repeat", vec![lit(num(1))])]);
    let f = call("fold", vec![src, call("empty", vec![]), call("add", vec![])]);
    assert_eq!(run(f, Val::Null), Some(vec![]));
}

#[test]
fn resolution_reports_the_first_unbound_pair() {
    // Operands resolve before the call's own name, so the inner unbound
    // call is the one reported.
    let term = call("outer_missing", vec![call("inner_missing", vec![])]);
    let main = Main { defs: Definitions::new(vec![]), term };
    match main.open(empty_module()) {
        Err(e) => assert_eq!(e, ResolutionError::Unbound(s("inner_missing"), 0)),
        Ok(_) => panic!("resolution should fail"),
    }
}

#[test]
fn main_definitions_shadow_module_definitions() {
    let module = Module::new(Definitions::new(vec![Definition {
        name: s("pick"),
        args: vec![],
        term: lit(num(1)),
    }]));
    let defs = Definitions::new(vec![Definition {
        name: s("pick"),
        args: vec![],
        term: lit(num(2)),
    }]);
    let main = Main { defs, term: call("pick", vec![]) };
    let closed = main.open(module).unwrap();
    assert_eq!(closed.run(&Val::Null, FUEL), Some(vec![Ok(num(2))]));
}
