use jaq_core::val::{Val, Tag, Error, str_eq, obj_get};
use jaq_core::functions::New;

fn num(n: i64) -> Val {
    Val::Num(n)
}

fn s(t: &str) -> String {
    t.to_string()
}

#[test]
fn truthiness_follows_jq() {
    assert!(!Val::Null.as_bool());
    assert!(!Val::Bool(false).as_bool());
    assert!(Val::Bool(true).as_bool());
    assert!(num(0).as_bool());
    assert!(Val::Str(s("")).as_bool());
    assert!(Val::Arr(vec![]).as_bool());
    assert!(Val::Obj(vec![]).as_bool());
}

#[test]
fn length_of_each_type() {
    assert_eq!(Val::Null.length(), Ok(0));
    assert_eq!(num(-5).length(), Ok(-5));
    assert_eq!(Val::Str(s("abc")).length(), Ok(3));
    assert_eq!(Val::Arr(vec![num(1), num(2)]).length(), Ok(2));
    assert_eq!(Val::Obj(vec![(s("a"), num(1))]).length(), Ok(1));
    assert_eq!(Val::Bool(true).length(), Err(Error::Length(Tag::Bool)));
}

#[test]
fn iterate_arrays_and_objects_in_order() {
    let a = Val::Arr(vec![num(1), num(2), num(3)]);
    assert_eq!(a.iterate(), Ok(vec![num(1), num(2), num(3)]));
    let o = Val::Obj(vec![(s("b"), num(2)), (s("a"), num(1))]);
    assert_eq!(o.iterate(), Ok(vec![num(2), num(1)]));
    assert_eq!(num(7).iterate(), Err(Error::Iterate(Tag::Num)));
    assert_eq!(Val::Str(s("x")).iterate(), Err(Error::Iterate(Tag::Str)));
}

#[test]
fn length_counts_iteration() {
    let a = Val::Arr(vec![num(4), num(5)]);
    assert_eq!(a.length().unwrap() as usize, a.iterate().unwrap().len());
    let o = Val::Obj(vec![(s("x"), num(1)), (s("y"), num(2)), (s("z"), num(3))]);
    assert_eq!(o.length().unwrap() as usize, o.iterate().unwrap().len());
}

#[test]
fn combine_numbers_strings_arrays() {
    assert_eq!(num(2).combine(num(3)), Ok(num(5)));
    assert_eq!(Val::Str(s("ab")).combine(Val::Str(s("cd"))), Ok(Val::Str(s("abcd"))));
    assert_eq!(
        Val::Arr(vec![num(1)]).combine(Val::Arr(vec![num(2), num(3)])),
        Ok(Val::Arr(vec![num(1), num(2), num(3)]))
    );
}

#[test]
fn combine_null_is_identity_on_both_sides() {
    assert_eq!(Val::Null.combine(num(9)), Ok(num(9)));
    assert_eq!(num(9).combine(Val::Null), Ok(num(9)));
    assert_eq!(Val::Null.combine(Val::Null), Ok(Val::Null));
}

#[test]
fn combine_objects_right_biased_union() {
    let a = Val::Obj(vec![(s("a"), num(1)), (s("b"), num(2))]);
    let b = Val::Obj(vec![(s("b"), num(3)), (s("c"), num(4))]);
    assert_eq!(
        a.combine(b),
        Ok(Val::Obj(vec![(s("a"), num(1)), (s("b"), num(3)), (s("c"), num(4))]))
    );
}

#[test]
fn combine_type_errors_name_both_tags() {
    assert_eq!(num(1).combine(Val::Str(s("a"))), Err(Error::Combine(Tag::Num, Tag::Str)));
    assert_eq!(
        Val::Bool(true).combine(Val::Bool(false)),
        Err(Error::Combine(Tag::Bool, Tag::Bool))
    );
    assert_eq!(
        Val::Arr(vec![]).combine(Val::Obj(vec![])),
        Err(Error::Combine(Tag::Arr, Tag::Obj))
    );
}

#[test]
fn combine_overflow_is_an_error() {
    assert_eq!(num(i64::MAX).combine(num(1)), Err(Error::Overflow));
    assert_eq!(num(i64::MIN).combine(num(-1)), Err(Error::Overflow));
}

#[test]
fn atomic_builtins_produce_one_result() {
    assert_eq!(New::Null.run(&num(5)), Ok(Val::Null));
    assert_eq!(New::True.run(&num(5)), Ok(Val::Bool(true)));
    assert_eq!(New::False.run(&num(5)), Ok(Val::Bool(false)));
    assert_eq!(New::Not.run(&Val::Null), Ok(Val::Bool(true)));
    assert_eq!(New::Not.run(&num(0)), Ok(Val::Bool(false)));
    assert_eq!(New::Length.run(&Val::Str(s("hi"))), Ok(num(2)));
    assert_eq!(New::Type.run(&Val::Arr(vec![])), Ok(Val::Str(s("array"))));
    assert_eq!(New::Type.run(&Val::Null), Ok(Val::Str(s("null"))));
}

#[test]
fn add_folds_combine_over_members() {
    assert_eq!(New::Add.run(&Val::Arr(vec![num(1), num(2), num(3)])), Ok(num(6)));
    assert_eq!(New::Add.run(&Val::Arr(vec![])), Ok(Val::Null));
    assert_eq!(New::Add.run(&Val::Obj(vec![(s("a"), num(1))])), Ok(num(1)));
    assert_eq!(
        New::Add.run(&Val::Arr(vec![num(1), Val::Str(s("a"))])),
        Err(Error::Combine(Tag::Num, Tag::Str))
    );
    assert_eq!(New::Add.run(&num(3)), Err(Error::Iterate(Tag::Num)));
}

#[test]
fn string_equality_is_by_characters() {
    assert!(str_eq("abc", "abc"));
    assert!(!str_eq("abc", "abd"));
    assert!(!str_eq("abc", "ab"));
    assert!(str_eq("", ""));
}

#[test]
fn object_lookup_takes_last_binding() {
    let o = vec![(s("k"), num(1)), (s("k"), num(2))];
    assert_eq!(obj_get(&o, "k"), Some(&num(2)));
    assert_eq!(obj_get(&o, "missing"), None);
}

#[test]
fn dup_copies_deeply() {
    let v = Val::Obj(vec![(s("a"), Val::Arr(vec![num(1), Val::Str(s("x"))]))]);
    assert_eq!(v.dup(), v);
}
