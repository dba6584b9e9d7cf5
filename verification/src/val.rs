//! The runtime value model: a JSON-like tagged union together with the
//! operators the builtin filters rest on (truthiness, iteration, length,
//! combination, type tags) and the evaluation-time error values.
//!
//! Every operator is specified against `ValS`, the mathematical model of a
//! value, and the executable operators are proved to match those
//! specifications exactly.

use vstd::prelude::*;
use vstd::string::StrSliceExecFns;
use vstd::string::StringExecFns;

verus! {

broadcast use vstd::std_specs::vec::group_vec_axioms;

/// A structured runtime value. Values are immutable once constructed.
#[derive(Debug, PartialEq, Eq)]
pub enum Val {
    Null,
    Bool(bool),
    Num(i64),
    Str(String),
    Arr(Vec<Val>),
    /// An ordered-by-insertion mapping from string keys to values,
    /// kept as a sequence of pairs.
    Obj(Vec<(String, Val)>),
}

/// The mathematical model of a [`Val`]: numbers as unbounded integers,
/// strings as character sequences, arrays and objects as sequences.
pub enum ValS {
    Null,
    Bool(bool),
    Num(int),
    Str(Seq<char>),
    Arr(Seq<ValS>),
    Obj(Seq<(Seq<char>, ValS)>),
}

/// The canonical type tag of a value.
#[derive(Clone, Copy, Debug, PartialEq, Eq, Structural)]
pub enum Tag {
    Null,
    Bool,
    Num,
    Str,
    Arr,
    Obj,
}

/// An evaluation-time error. Type errors carry the operation through their
/// variant and the offending type tag(s); a cast error arises when a count
/// cannot be coerced to a non-negative machine integer, and `Overflow` when
/// a numeric result leaves the representable range.
#[derive(Clone, Copy, Debug, PartialEq, Eq, Structural)]
pub enum Error {
    /// `iterate` applied to a scalar of this type.
    Iterate(Tag),
    /// `length` applied to a value of this type (booleans have no length).
    Length(Tag),
    /// `combine` applied to an unsupported pairing of these two types.
    Combine(Tag, Tag),
    /// A numeric result is not representable.
    Overflow,
    /// A value of this type where a non-negative count was required
    /// (`Tag::Num` means the number itself was negative or too large).
    Cast(Tag),
}

/// The model of a value.
pub open spec fn val_view(v: Val) -> ValS
    decreases v, 0int, 0int,
{
    match v {
        Val::Null => ValS::Null,
        Val::Bool(b) => ValS::Bool(b),
        Val::Num(n) => ValS::Num(n as int),
        Val::Str(s) => ValS::Str(s@),
        Val::Arr(a) => ValS::Arr(arr_view_upto(a, a.len() as int)),
        Val::Obj(o) => ValS::Obj(obj_view_upto(o, o.len() as int)),
    }
}

/// The models of the first `n` elements of an array's backing vector.
pub open spec fn arr_view_upto(a: Vec<Val>, n: int) -> Seq<ValS>
    decreases a, 1int, n,
{
    if n <= 0 || n > a.len() {
        Seq::empty()
    } else {
        arr_view_upto(a, n - 1).push(val_view(a[n - 1]))
    }
}

/// The models of the first `n` pairs of an object's backing vector.
pub open spec fn obj_view_upto(o: Vec<(String, Val)>, n: int) -> Seq<(Seq<char>, ValS)>
    decreases o, 1int, n,
{
    if n <= 0 || n > o.len() {
        Seq::empty()
    } else {
        obj_view_upto(o, n - 1).push((o[n - 1].0@, val_view(o[n - 1].1)))
    }
}

impl DeepView for Val {
    type V = ValS;

    open spec fn deep_view(&self) -> ValS {
        val_view(*self)
    }
}

/// The models of a sequence of values, elementwise.
pub open spec fn seq_view(s: Seq<Val>) -> Seq<ValS> {
    s.map_values(|x: Val| val_view(x))
}

/// The models of a sequence of key-value pairs, elementwise.
pub open spec fn pairs_view(s: Seq<(String, Val)>) -> Seq<(Seq<char>, ValS)> {
    s.map_values(|p: (String, Val)| (p.0@, val_view(p.1)))
}

pub proof fn lemma_arr_view_upto(a: Vec<Val>, n: int)
    requires
        0 <= n <= a.len(),
    ensures
        arr_view_upto(a, n) =~= seq_view(a@.take(n)),
    decreases n,
{
    if n > 0 {
        lemma_arr_view_upto(a, n - 1);
        assert(a@.take(n).drop_last() =~= a@.take(n - 1));
        assert(seq_view(a@.take(n)).drop_last() =~= seq_view(a@.take(n).drop_last()));
    }
}

pub proof fn lemma_obj_view_upto(o: Vec<(String, Val)>, n: int)
    requires
        0 <= n <= o.len(),
    ensures
        obj_view_upto(o, n) =~= pairs_view(o@.take(n)),
    decreases n,
{
    if n > 0 {
        lemma_obj_view_upto(o, n - 1);
        assert(o@.take(n).drop_last() =~= o@.take(n - 1));
        assert(pairs_view(o@.take(n)).drop_last() =~= pairs_view(o@.take(n).drop_last()));
    }
}

/// The model of an array value is the elementwise model of its elements,
/// and likewise for objects.
pub broadcast proof fn lemma_val_view_arr(a: Vec<Val>)
    ensures
        #[trigger] val_view(Val::Arr(a)) == ValS::Arr(seq_view(a@)),
{
    lemma_arr_view_upto(a, a.len() as int);
    assert(a@.take(a.len() as int) =~= a@);
}

pub broadcast proof fn lemma_val_view_obj(o: Vec<(String, Val)>)
    ensures
        #[trigger] val_view(Val::Obj(o)) == ValS::Obj(pairs_view(o@)),
{
    lemma_obj_view_upto(o, o.len() as int);
    assert(o@.take(o.len() as int) =~= o@);
}

/// One item of an output stream: a value, or an error that ends the
/// consumption of the stream that produced it.
pub type ValR = Result<Val, Error>;

/// The model of one output item.
pub type ValRS = Result<ValS, Error>;

/// The model of one item as the executable code returns it.
pub open spec fn lift_valr(r: ValR) -> ValRS {
    match r {
        Ok(v) => Ok(val_view(v)),
        Err(e) => Err(e),
    }
}

/// The model of an executable output stream.
pub open spec fn stream_view(s: Seq<ValR>) -> Seq<ValRS> {
    s.map_values(|r: ValR| lift_valr(r))
}

pub open spec fn tag_of(v: ValS) -> Tag {
    match v {
        ValS::Null => Tag::Null,
        ValS::Bool(_) => Tag::Bool,
        ValS::Num(_) => Tag::Num,
        ValS::Str(_) => Tag::Str,
        ValS::Arr(_) => Tag::Arr,
        ValS::Obj(_) => Tag::Obj,
    }
}

/// Every value is truthy except `Null` and `Bool(false)`; in particular
/// `0`, the empty string, the empty array and the empty object are truthy.
pub open spec fn truthy(v: ValS) -> bool {
    match v {
        ValS::Null => false,
        ValS::Bool(b) => b,
        _ => true,
    }
}

/// The member stream of a value: the elements of an array in array order,
/// the values of an object in insertion order; scalars have none.
pub open spec fn iter_of(v: ValS) -> Result<Seq<ValS>, Error> {
    match v {
        ValS::Arr(a) => Ok(a),
        ValS::Obj(o) => Ok(o.map_values(|p: (Seq<char>, ValS)| p.1)),
        _ => Err(Error::Iterate(tag_of(v))),
    }
}

/// The numeric size of a value: character count of a string, element count
/// of an array, key count of an object, 0 for null, the number itself for a
/// number; booleans have no length.
pub open spec fn len_of(v: ValS) -> Result<int, Error> {
    match v {
        ValS::Null => Ok(0),
        ValS::Bool(_) => Err(Error::Length(Tag::Bool)),
        ValS::Num(n) => Ok(n),
        ValS::Str(s) => Ok(s.len() as int),
        ValS::Arr(a) => Ok(a.len() as int),
        ValS::Obj(o) => Ok(o.len() as int),
    }
}

pub open spec fn obj_has_key(o: Seq<(Seq<char>, ValS)>, k: Seq<char>) -> bool {
    exists|i: int| 0 <= i < o.len() && o[i].0 == k
}

/// The value under key `k`, taking the last binding when a key repeats.
pub open spec fn obj_lookup(o: Seq<(Seq<char>, ValS)>, k: Seq<char>) -> Option<ValS>
    decreases o.len(),
{
    if o.len() == 0 {
        None
    } else if o.last().0 == k {
        Some(o.last().1)
    } else {
        obj_lookup(o.drop_last(), k)
    }
}

/// The left half of a right-biased object union: `a`'s pairs in order, each
/// overridden by `b`'s binding where `b` binds the same key.
pub open spec fn obj_left(a: Seq<(Seq<char>, ValS)>, b: Seq<(Seq<char>, ValS)>) -> Seq<
    (Seq<char>, ValS),
>
    decreases a.len(),
{
    if a.len() == 0 {
        Seq::empty()
    } else {
        let p = a.last();
        let q = if obj_has_key(b, p.0) {
            (p.0, obj_lookup(b, p.0)->Some_0)
        } else {
            p
        };
        obj_left(a.drop_last(), b).push(q)
    }
}

/// The right half of a right-biased object union: `b`'s pairs whose keys are
/// absent from `a`, in `b`'s order.
pub open spec fn obj_right(a: Seq<(Seq<char>, ValS)>, b: Seq<(Seq<char>, ValS)>) -> Seq<
    (Seq<char>, ValS),
>
    decreases b.len(),
{
    if b.len() == 0 {
        Seq::empty()
    } else {
        let q = b.last();
        if obj_has_key(a, q.0) {
            obj_right(a, b.drop_last())
        } else {
            obj_right(a, b.drop_last()).push(q)
        }
    }
}

/// The `+` operator: numeric addition, string and array concatenation,
/// right-biased key union of objects; `Null` is its identity element on
/// either side; every other pairing is a type error naming both tags.
/// Numeric addition fails with `Overflow` outside the representable range.
pub open spec fn combine_of(a: ValS, b: ValS) -> Result<ValS, Error> {
    match (a, b) {
        (ValS::Null, x) => Ok(x),
        (x, ValS::Null) => Ok(x),
        (ValS::Num(x), ValS::Num(y)) => if i64::MIN <= x + y <= i64::MAX {
            Ok(ValS::Num(x + y))
        } else {
            Err(Error::Overflow)
        },
        (ValS::Str(x), ValS::Str(y)) => Ok(ValS::Str(x + y)),
        (ValS::Arr(x), ValS::Arr(y)) => Ok(ValS::Arr(x + y)),
        (ValS::Obj(x), ValS::Obj(y)) => Ok(ValS::Obj(obj_left(x, y) + obj_right(x, y))),
        (x, y) => Err(Error::Combine(tag_of(x), tag_of(y))),
    }
}

/// Left fold of `combine_of` over a member sequence, failing at the first
/// failing combination.
pub open spec fn add_fold(acc: ValS, s: Seq<ValS>) -> Result<ValS, Error>
    decreases s.len(),
{
    if s.len() == 0 {
        Ok(acc)
    } else {
        match combine_of(acc, s.first()) {
            Ok(a) => add_fold(a, s.drop_first()),
            Err(e) => Err(e),
        }
    }
}

/// The `add` operation: the left fold of `combine_of` over the member
/// stream of `v`, starting from `Null`.
pub open spec fn add_of(v: ValS) -> Result<ValS, Error> {
    match iter_of(v) {
        Ok(s) => add_fold(ValS::Null, s),
        Err(e) => Err(e),
    }
}

/// The canonical lowercase name of a type tag.
pub open spec fn tag_name(t: Tag) -> Seq<char> {
    match t {
        Tag::Null => "null"@,
        Tag::Bool => "boolean"@,
        Tag::Num => "number"@,
        Tag::Str => "string"@,
        Tag::Arr => "array"@,
        Tag::Obj => "object"@,
    }
}

impl Val {
    /// The type tag of this value.
    pub fn typ(&self) -> (t: Tag)
        ensures
            t == tag_of(self.deep_view()),
    {
        match self {
            Val::Null => Tag::Null,
            Val::Bool(_) => Tag::Bool,
            Val::Num(_) => Tag::Num,
            Val::Str(_) => Tag::Str,
            Val::Arr(_) => Tag::Arr,
            Val::Obj(_) => Tag::Obj,
        }
    }

    /// Truthiness: everything but `Null` and `Bool(false)` is truthy.
    pub fn as_bool(&self) -> (r: bool)
        ensures
            r == truthy(self.deep_view()),
    {
        match self {
            Val::Null => false,
            Val::Bool(b) => *b,
            _ => true,
        }
    }

    /// An exact copy of this value.
    #[verifier::loop_isolation(false)]
    pub fn dup(&self) -> (r: Val)
        ensures
            r.deep_view() == self.deep_view(),
        decreases self,
    {
        match self {
            Val::Null => Val::Null,
            Val::Bool(b) => Val::Bool(*b),
            Val::Num(n) => Val::Num(*n),
            Val::Str(s) => Val::Str(s.as_str().to_owned()),
            Val::Arr(a) => {
                let mut out: Vec<Val> = Vec::new();
                let mut i: usize = 0;
                while i < a.len()
                    invariant
                        i <= a.len(),
                        out@.len() == i as int,
                        forall|j: int| #![auto]
                            0 <= j < i as int ==> val_view(out@[j]) == val_view(a@[j]),
                    decreases a.len() - i,
                {
                    proof {
                        vstd::std_specs::vec::axiom_vec_index_decreases(*a, i as int);
                        assert(decreases_to!(*self => *a));
                    }
                    out.push(a[i].dup());
                    i = i + 1;
                }
                proof {
                    lemma_val_view_arr(out);
                    lemma_val_view_arr(*a);
                    assert(seq_view(out@) =~= seq_view(a@));
                }
                Val::Arr(out)
            },
            Val::Obj(o) => {
                let mut out: Vec<(String, Val)> = Vec::new();
                let mut i: usize = 0;
                while i < o.len()
                    invariant
                        i <= o.len(),
                        out@.len() == i as int,
                        forall|j: int| #![auto]
                            0 <= j < i as int ==> out@[j].0@ == o@[j].0@ && val_view(out@[j].1)
                                == val_view(o@[j].1),
                    decreases o.len() - i,
                {
                    proof {
                        vstd::std_specs::vec::axiom_vec_index_decreases(*o, i as int);
                        assert(decreases_to!(*self => *o));
                    }
                    let key = o[i].0.as_str().to_owned();
                    out.push((key, o[i].1.dup()));
                    i = i + 1;
                }
                proof {
                    lemma_val_view_obj(out);
                    lemma_val_view_obj(*o);
                    assert(pairs_view(out@) =~= pairs_view(o@));
                }
                Val::Obj(out)
            },
        }
    }

    /// The member stream of this value, or the iteration type error.
    pub fn iterate(&self) -> (r: Result<Vec<Val>, Error>)
        ensures
            match r {
                Ok(els) => iter_of(self.deep_view()) == Ok::<Seq<ValS>, Error>(seq_view(els@)),
                Err(e) => iter_of(self.deep_view()) == Err::<Seq<ValS>, Error>(e),
            },
    {
        match self {
            Val::Arr(a) => {
                let mut out: Vec<Val> = Vec::new();
                let mut i: usize = 0;
                while i < a.len()
                    invariant
                        i <= a.len(),
                        out@.len() == i as int,
                        forall|j: int| #![auto]
                            0 <= j < i as int ==> val_view(out@[j]) == val_view(a@[j]),
                    decreases a.len() - i,
                {
                    out.push(a[i].dup());
                    i = i + 1;
                }
                proof {
                    lemma_val_view_arr(*a);
                    assert(seq_view(out@) =~= seq_view(a@));
                }
                Ok(out)
            },
            Val::Obj(o) => {
                let mut out: Vec<Val> = Vec::new();
                let mut i: usize = 0;
                while i < o.len()
                    invariant
                        i <= o.len(),
                        out@.len() == i as int,
                        forall|j: int| #![auto]
                            0 <= j < i as int ==> val_view(out@[j]) == val_view(o@[j].1),
                    decreases o.len() - i,
                {
                    out.push(o[i].1.dup());
                    i = i + 1;
                }
                proof {
                    lemma_val_view_obj(*o);
                    assert(seq_view(out@) =~= pairs_view(o@).map_values(
                        |p: (Seq<char>, ValS)| p.1,
                    ));
                }
                Ok(out)
            },
            _ => Err(Error::Iterate(self.typ())),
        }
    }

    /// The numeric size of this value, or the length type error; `Overflow`
    /// where the size does not fit the numeric range.
    pub fn length(&self) -> (r: Result<i64, Error>)
        ensures
            match len_of(self.deep_view()) {
                Ok(l) => if i64::MIN <= l <= i64::MAX {
                    r == Ok::<i64, Error>(l as i64)
                } else {
                    r == Err::<i64, Error>(Error::Overflow)
                },
                Err(e) => r == Err::<i64, Error>(e),
            },
    {
        match self {
            Val::Null => Ok(0),
            Val::Bool(_) => Err(Error::Length(Tag::Bool)),
            Val::Num(n) => Ok(*n),
            Val::Str(s) => {
                let l = s.as_str().unicode_len();
                if l as u64 <= i64::MAX as u64 {
                    Ok(l as i64)
                } else {
                    Err(Error::Overflow)
                }
            },
            Val::Arr(a) => {
                proof {
                    lemma_val_view_arr(*a);
                }
                let l = a.len();
                if l as u64 <= i64::MAX as u64 {
                    Ok(l as i64)
                } else {
                    Err(Error::Overflow)
                }
            },
            Val::Obj(o) => {
                proof {
                    lemma_val_view_obj(*o);
                }
                let l = o.len();
                if l as u64 <= i64::MAX as u64 {
                    Ok(l as i64)
                } else {
                    Err(Error::Overflow)
                }
            },
        }
    }
}

impl Tag {
    /// The canonical lowercase name of this tag.
    pub fn name(&self) -> (r: String)
        ensures
            r@ == tag_name(*self),
    {
        match self {
            Tag::Null => "null".to_owned(),
            Tag::Bool => "boolean".to_owned(),
            Tag::Num => "number".to_owned(),
            Tag::Str => "string".to_owned(),
            Tag::Arr => "array".to_owned(),
            Tag::Obj => "object".to_owned(),
        }
    }
}

/// Verified string equality: two strings are equal exactly when their
/// character sequences are.
pub fn str_eq(a: &str, b: &str) -> (r: bool)
    ensures
        r == (a@ == b@),
{
    let ab = a.as_bytes_vec();
    let bb = b.as_bytes_vec();
    proof {
        vstd::utf8::encode_utf8_decode_utf8(a@);
        vstd::utf8::encode_utf8_decode_utf8(b@);
    }
    if ab.len() != bb.len() {
        return false;
    }
    let mut i: usize = 0;
    while i < ab.len()
        invariant
            i <= ab.len(),
            ab.len() == bb.len(),
            ab@ == vstd::utf8::encode_utf8(a@),
            bb@ == vstd::utf8::encode_utf8(b@),
            vstd::utf8::decode_utf8(ab@) == a@,
            vstd::utf8::decode_utf8(bb@) == b@,
            forall|j: int| 0 <= j < i as int ==> ab@[j] == bb@[j],
        decreases ab.len() - i,
    {
        if ab[i] != bb[i] {
            proof {
                assert(ab@ != bb@);
            }
            return false;
        }
        i = i + 1;
    }
    proof {
        assert(ab@ =~= bb@);
    }
    true
}

/// The binding under key `k` in an object's pair vector, taking the last
/// binding when a key repeats; `None` when the key is absent.
pub fn obj_get<'a>(o: &'a Vec<(String, Val)>, k: &str) -> (r: Option<&'a Val>)
    ensures
        match r {
            Some(v) => obj_lookup(pairs_view(o@), k@) == Some(val_view(*v)),
            None => obj_lookup(pairs_view(o@), k@) is None,
        },
{
    let mut i: usize = o.len();
    proof {
        assert(pairs_view(o@).take(i as int) =~= pairs_view(o@));
    }
    while i > 0
        invariant
            i <= o.len(),
            obj_lookup(pairs_view(o@), k@) == obj_lookup(
                pairs_view(o@).take(i as int),
                k@,
            ),
        decreases i,
    {
        i = i - 1;
        if str_eq(o[i].0.as_str(), k) {
            proof {
                assert(pairs_view(o@).take(i as int + 1).last() == (o@[i as int].0@, val_view(
                    o@[i as int].1,
                )));
            }
            return Some(&o[i].1);
        }
        proof {
            assert(pairs_view(o@).take(i as int + 1).drop_last() =~= pairs_view(o@).take(
                i as int,
            ));
        }
    }
    proof {
        assert(pairs_view(o@).take(0) =~= Seq::<(Seq<char>, ValS)>::empty());
    }
    None
}

/// A key is present exactly when its lookup succeeds.
pub proof fn lemma_obj_lookup_has_key(o: Seq<(Seq<char>, ValS)>, k: Seq<char>)
    ensures
        obj_has_key(o, k) <==> obj_lookup(o, k) is Some,
    decreases o.len(),
{
    if o.len() == 0 {
    } else if o.last().0 == k {
        assert(o[o.len() - 1].0 == k);
    } else {
        lemma_obj_lookup_has_key(o.drop_last(), k);
        if obj_has_key(o, k) {
            let i = choose|i: int| 0 <= i < o.len() && o[i].0 == k;
            assert(o.drop_last()[i] == o[i]);
        }
        if obj_has_key(o.drop_last(), k) {
            let i = choose|i: int| 0 <= i < o.drop_last().len() && o.drop_last()[i].0 == k;
            assert(o[i] == o.drop_last()[i]);
        }
    }
}

impl Val {
    /// The `+` operator on values, consuming both operands.
    pub fn combine(self, other: Val) -> (r: Result<Val, Error>)
        ensures
            match r {
                Ok(v) => combine_of(self.deep_view(), other.deep_view()) == Ok::<ValS, Error>(
                    val_view(v),
                ),
                Err(e) => combine_of(self.deep_view(), other.deep_view()) == Err::<ValS, Error>(e),
            },
    {
        match (self, other) {
            (Val::Null, x) => Ok(x),
            (x, Val::Null) => Ok(x),
            (Val::Num(x), Val::Num(y)) => {
                if (y > 0 && x > i64::MAX - y) || (y < 0 && x < i64::MIN - y) {
                    Err(Error::Overflow)
                } else {
                    Ok(Val::Num(x + y))
                }
            },
            (Val::Str(x), Val::Str(y)) => Ok(Val::Str(x.concat(y.as_str()))),
            (Val::Arr(x), Val::Arr(y)) => {
                let ghost xv = x;
                let ghost xm = x@;
                let mut out = x;
                let mut i: usize = 0;
                while i < y.len()
                    invariant
                        i <= y.len(),
                        out@.len() == xm.len() + i as int,
                        out@.take(xm.len() as int) == xm,
                        forall|j: int| #![auto]
                            0 <= j < i as int ==> val_view(out@[xm.len() + j]) == val_view(
                                y@[j],
                            ),
                    decreases y.len() - i,
                {
                    out.push(y[i].dup());
                    proof {
                        assert(out@.take(xm.len() as int) =~= xm);
                    }
                    i = i + 1;
                }
                proof {
                    lemma_val_view_arr(out);
                    lemma_val_view_arr(xv);
                    lemma_val_view_arr(y);
                    assert(seq_view(out@) =~= seq_view(xm) + seq_view(y@));
                    assert(val_view(Val::Arr(out)) == ValS::Arr(seq_view(xm) + seq_view(y@)));
                }
                Ok(Val::Arr(out))
            },
            (Val::Obj(x), Val::Obj(y)) => {
                let ghost xm = pairs_view(x@);
                let ghost ym = pairs_view(y@);
                let mut out: Vec<(String, Val)> = Vec::new();
                let mut i: usize = 0;
                while i < x.len()
                    invariant
                        i <= x.len(),
                        xm == pairs_view(x@),
                        ym == pairs_view(y@),
                        pairs_view(out@) == obj_left(xm.take(i as int), ym),
                    decreases x.len() - i,
                {
                    let ghost before = pairs_view(out@);
                    let key = x[i].0.as_str().to_owned();
                    match obj_get(&y, x[i].0.as_str()) {
                        Some(v) => {
                            proof {
                                lemma_obj_lookup_has_key(ym, key@);
                            }
                            out.push((key, v.dup()));
                        },
                        None => {
                            proof {
                                lemma_obj_lookup_has_key(ym, key@);
                            }
                            out.push((key, x[i].1.dup()));
                        },
                    }
                    proof {
                        assert(pairs_view(out@) =~= before.push(
                            (out@.last().0@, val_view(out@.last().1)),
                        ));
                        assert(xm.take(i as int + 1).drop_last() =~= xm.take(i as int));
                        assert(pairs_view(out@) =~= obj_left(xm.take(i as int + 1), ym));
                    }
                    i = i + 1;
                }
                proof {
                    assert(xm.take(x.len() as int) =~= xm);
                }
                let mut j: usize = 0;
                while j < y.len()
                    invariant
                        j <= y.len(),
                        xm == pairs_view(x@),
                        ym == pairs_view(y@),
                        pairs_view(out@) == obj_left(xm, ym) + obj_right(xm, ym.take(j as int)),
                    decreases y.len() - j,
                {
                    let ghost before = pairs_view(out@);
                    let key = y[j].0.as_str().to_owned();
                    match obj_get(&x, y[j].0.as_str()) {
                        Some(_) => {
                            proof {
                                lemma_obj_lookup_has_key(xm, key@);
                                assert(ym.take(j as int + 1).drop_last() =~= ym.take(j as int));
                                assert(pairs_view(out@) =~= obj_left(xm, ym) + obj_right(
                                    xm,
                                    ym.take(j as int + 1),
                                ));
                            }
                        },
                        None => {
                            proof {
                                lemma_obj_lookup_has_key(xm, key@);
                            }
                            out.push((key, y[j].1.dup()));
                            proof {
                                assert(pairs_view(out@) =~= before.push(
                                    (out@.last().0@, val_view(out@.last().1)),
                                ));
                                assert(ym.take(j as int + 1).drop_last() =~= ym.take(j as int));
                                assert(pairs_view(out@) =~= obj_left(xm, ym) + obj_right(
                                    xm,
                                    ym.take(j as int + 1),
                                ));
                            }
                        },
                    }
                    j = j + 1;
                }
                proof {
                    assert(ym.take(y.len() as int) =~= ym);
                    lemma_val_view_obj(out);
                    lemma_val_view_obj(x);
                    lemma_val_view_obj(y);
                }
                Ok(Val::Obj(out))
            },
            (x, y) => Err(Error::Combine(x.typ(), y.typ())),
        }
    }
}

} // verus!
