//! Name resolution: the open/close pass.
//!
//! A program arrives with symbolic calls, each a `(name, arity)` pair.
//! Resolution seeds a binding environment with the builtin catalog, adds
//! every module and program definition (later definitions shadow earlier
//! ones and builtins of the same name and arity), and then resolves every
//! definition body and the top-level term against it. A definition's slot
//! in the arena is created before any body is resolved, so definitions
//! may call themselves, each other, and definitions that appear later.
//! A call whose `(name, arity)` is bound nowhere fails resolution with
//! exactly that pair; nothing is left to fail at evaluation time, since a
//! resolved filter has no names, only arena indices.

use vstd::prelude::*;
use vstd::string::StrSliceExecFns;
use crate::val::str_eq;
use crate::functions::{New, Ref, Builtin, builtin_wf};
use crate::filter::{PreFilter, Closed, ClosedFilter};
use std::rc::Rc;

verus! {

/// A user definition: its name, its formal parameter names (parameters
/// are filters, not values), and its body.
#[derive(Debug)]
pub struct Definition {
    pub name: String,
    pub args: Vec<String>,
    pub term: PreFilter,
}

/// An ordered group of definitions.
#[derive(Debug)]
pub struct Definitions(pub Vec<Definition>);

/// Library-level definitions, resolved before the program's own.
#[derive(Debug)]
pub struct Module(pub Definitions);

/// A program: its definitions and the top-level filter to run.
#[derive(Debug)]
pub struct Main {
    pub defs: Definitions,
    pub term: PreFilter,
}

/// Resolution failed: this `(name, arity)` is bound nowhere.
#[derive(Debug, PartialEq, Eq)]
pub enum ResolutionError {
    Unbound(String, usize),
}

impl Definitions {
    pub fn new(defs: Vec<Definition>) -> (r: Self)
        ensures
            r.0@ == defs@,
    {
        Definitions(defs)
    }
}

impl Module {
    pub fn new(defs: Definitions) -> (r: Self)
        ensures
            r.0.0@ == defs.0@,
    {
        Module(defs)
    }
}

/// One binding of the resolution environment.
pub struct Binding {
    pub name: String,
    pub arity: usize,
    pub target: Target,
}

/// What a binding resolves to: a builtin catalog entry, or the arena
/// index of a definition.
pub enum Target {
    B(Builtin<usize>),
    D(usize),
}

/// Every builtin bound in the environment may be instantiated at its
/// recorded arity.
pub open spec fn env_wf(env: Seq<Binding>) -> bool {
    forall|j: int|
        0 <= j < env.len() ==> match #[trigger] env[j].target {
            Target::B(b) => builtin_wf(b, env[j].arity as nat),
            Target::D(_) => true,
        }
}

/// The pair is bound somewhere in the environment.
pub open spec fn env_binds(env: Seq<Binding>, n: Seq<char>, a: nat) -> bool {
    exists|j: int| 0 <= j < env.len() && env[j].name@ == n && env[j].arity as nat == a
}

/// The filter contains a call of this `(name, arity)`, at any depth.
pub open spec fn pre_mentions(t: PreFilter, n: Seq<char>, a: nat) -> bool
    decreases t, 0int, 0int,
{
    match t {
        PreFilter::Id => false,
        PreFilter::Lit(_) => false,
        PreFilter::Call(name, ops) => (name@ == n && ops.len() as nat == a) || mentions_in(
            ops,
            ops.len() as int,
            n,
            a,
        ),
    }
}

/// Some of the first `k` operands contains such a call.
pub open spec fn mentions_in(ops: Vec<PreFilter>, k: int, n: Seq<char>, a: nat) -> bool
    decreases ops, 1int, k,
{
    if k <= 0 || k > ops.len() {
        false
    } else {
        pre_mentions(ops[k - 1], n, a) || mentions_in(ops, k - 1, n, a)
    }
}

/// A call mentioned among the first `k1` operands is mentioned among the
/// first `k2`.
pub proof fn lemma_mentions_in_mono(ops: Vec<PreFilter>, k1: int, k2: int, n: Seq<char>, a: nat)
    requires
        0 <= k1 <= k2 <= ops.len(),
        mentions_in(ops, k1, n, a),
    ensures
        mentions_in(ops, k2, n, a),
    decreases k2 - k1,
{
    if k1 < k2 {
        lemma_mentions_in_mono(ops, k1, k2 - 1, n, a);
    }
}

/// Some definition's body contains such a call.
pub open spec fn defs_mention(ds: Seq<Definition>, n: Seq<char>, a: nat) -> bool {
    exists|j: int| 0 <= j < ds.len() && pre_mentions(#[trigger] ds[j].term, n, a)
}

/// Some definition is registered under this `(name, arity)`.
pub open spec fn defs_bind(ds: Seq<Definition>, n: Seq<char>, a: nat) -> bool {
    exists|j: int| 0 <= j < ds.len() && (#[trigger] ds[j].name)@ == n && ds[j].args.len() as nat
        == a
}

/// The `(name, arity)` pairs of the builtin catalog.
pub open spec fn is_builtin_name(n: Seq<char>, a: nat) -> bool {
    ||| (n == "null"@ && a == 0)
    ||| (n == "true"@ && a == 0)
    ||| (n == "false"@ && a == 0)
    ||| (n == "not"@ && a == 0)
    ||| (n == "add"@ && a == 0)
    ||| (n == "length"@ && a == 0)
    ||| (n == "type"@ && a == 0)
    ||| (n == "empty"@ && a == 0)
    ||| (n == "repeat"@ && a == 1)
    ||| (n == "first"@ && a == 1)
    ||| (n == "last"@ && a == 1)
    ||| (n == "limit"@ && a == 2)
    ||| (n == "select"@ && a == 1)
    ||| (n == "recurse"@ && a == 1)
    ||| (n == "fold"@ && a == 3)
}


/// The first unbound call of a filter, in resolution order: a call's
/// operands are resolved left to right before its own name is looked up,
/// and an arity-0 call of a formal parameter binds without a lookup.
pub open spec fn first_unbound(t: PreFilter, fs: Seq<Seq<char>>, renv: REnv) -> Option<
    (Seq<char>, nat),
>
    decreases t, 2int, 0int,
{
    match t {
        PreFilter::Id => None,
        PreFilter::Lit(_) => None,
        PreFilter::Call(name, ops) => if ops.len() == 0 && formal_find(fs, name@) is Some {
            None
        } else {
            match first_unbound_ops(ops, fs, renv, 0) {
                Some(p) => Some(p),
                None => if renv_find(renv, name@, ops.len() as nat) is Some {
                    None
                } else {
                    Some((name@, ops.len() as nat))
                },
            }
        },
    }
}

/// The first unbound call among the operands from position `k` on.
pub open spec fn first_unbound_ops(ops: Vec<PreFilter>, fs: Seq<Seq<char>>, renv: REnv, k: int) -> Option<
    (Seq<char>, nat),
>
    decreases ops, 1int, ops.len() - k,
{
    if k < 0 || k >= ops.len() {
        None
    } else {
        match first_unbound(ops[k], fs, renv) {
            Some(p) => Some(p),
            None => first_unbound_ops(ops, fs, renv, k + 1),
        }
    }
}

/// The first unbound call among the definition bodies from position `k`
/// on, each body read under its own formal parameters.
pub open spec fn defs_first_unbound(ds: Seq<Definition>, renv: REnv, k: int) -> Option<
    (Seq<char>, nat),
>
    decreases ds.len() - k,
{
    if k < 0 || k >= ds.len() {
        None
    } else {
        match first_unbound(ds[k].term, names_of(ds[k].args@), renv) {
            Some(p) => Some(p),
            None => defs_first_unbound(ds, renv, k + 1),
        }
    }
}

/// The first unbound call of a whole program: the definition bodies in
/// order, then the top-level term.
pub open spec fn program_first_unbound(ds: Seq<Definition>, term: PreFilter) -> Option<
    (Seq<char>, nat),
>
{
    match defs_first_unbound(ds, the_env(ds), 0) {
        Some(p) => Some(p),
        None => first_unbound(term, Seq::empty(), the_env(ds)),
    }
}

/// Pushing a binding binds exactly one more pair.
pub proof fn lemma_env_binds_push(env: Seq<Binding>, b: Binding, n: Seq<char>, a: nat)
    ensures
        env_binds(env.push(b), n, a) <==> (env_binds(env, n, a) || (b.name@ == n && b.arity as nat
            == a)),
{
    if env_binds(env.push(b), n, a) {
        let j = choose|j: int|
            0 <= j < env.push(b).len() && env.push(b)[j].name@ == n && env.push(b)[j].arity as nat
                == a;
        if j < env.len() {
            assert(env[j] == env.push(b)[j]);
        }
    }
    if env_binds(env, n, a) {
        let j = choose|j: int| 0 <= j < env.len() && env[j].name@ == n && env[j].arity as nat == a;
        assert(env.push(b)[j] == env[j]);
    }
    if b.name@ == n && b.arity as nat == a {
        assert(env.push(b)[env.len() as int] == b);
    }
}

/// One more definition binds exactly one more pair.
pub proof fn lemma_defs_bind_take(ds: Seq<Definition>, i: int, n: Seq<char>, a: nat)
    requires
        0 <= i < ds.len(),
    ensures
        defs_bind(ds.take(i + 1), n, a) <==> (defs_bind(ds.take(i), n, a) || (ds[i].name@ == n
            && ds[i].args.len() as nat == a)),
{
    if defs_bind(ds.take(i + 1), n, a) {
        let t = ds.take(i + 1);
        let j = choose|j: int| 0 <= j < t.len() && t[j].name@ == n && t[j].args.len() as nat == a;
        if j < i {
            assert(ds.take(i)[j] == t[j]);
        } else {
            assert(t[j] == ds[i]);
        }
    }
    if defs_bind(ds.take(i), n, a) {
        let t = ds.take(i);
        let j = choose|j: int| 0 <= j < t.len() && t[j].name@ == n && t[j].args.len() as nat == a;
        assert(ds.take(i + 1)[j] == t[j]);
    }
    if ds[i].name@ == n && ds[i].args.len() as nat == a {
        assert(ds.take(i + 1)[i] == ds[i]);
    }
}

/// A pair bound by a concatenation is bound by one of the halves.
pub proof fn lemma_defs_bind_concat(d1: Seq<Definition>, d2: Seq<Definition>, n: Seq<char>, a: nat)
    ensures
        defs_bind(d1 + d2, n, a) <==> (defs_bind(d1, n, a) || defs_bind(d2, n, a)),
{
    if defs_bind(d1 + d2, n, a) {
        let j = choose|j: int|
            0 <= j < (d1 + d2).len() && (d1 + d2)[j].name@ == n && (d1 + d2)[j].args.len() as nat
                == a;
        if j < d1.len() {
            assert(d1[j] == (d1 + d2)[j]);
        } else {
            assert(d2[j - d1.len()] == (d1 + d2)[j]);
        }
    }
    if defs_bind(d1, n, a) {
        let j = choose|j: int|
            0 <= j < d1.len() && d1[j].name@ == n && d1[j].args.len() as nat == a;
        assert((d1 + d2)[j] == d1[j]);
    }
    if defs_bind(d2, n, a) {
        let j = choose|j: int|
            0 <= j < d2.len() && d2[j].name@ == n && d2[j].args.len() as nat == a;
        assert((d1 + d2)[j + d1.len()] == d2[j]);
    }
}

/// The environment binds exactly the builtins and the first `i`
/// definitions.
pub open spec fn env_tracks(env: Seq<Binding>, ds: Seq<Definition>, i: int) -> bool {
    forall|n: Seq<char>, a: nat|
        #![trigger env_binds(env, n, a)]
        env_binds(env, n, a) <==> (is_builtin_name(n, a) || defs_bind(ds.take(i), n, a))
}

/// Registering definition `i` extends what the environment binds by
/// exactly that definition's pair.
pub proof fn lemma_env_tracks_push(prev: Seq<Binding>, b: Binding, ds: Seq<Definition>, i: int)
    requires
        env_tracks(prev, ds, i),
        0 <= i < ds.len(),
        b.name@ == ds[i].name@,
        b.arity as nat == ds[i].args.len() as nat,
    ensures
        env_tracks(prev.push(b), ds, i + 1),
{
    assert forall|n: Seq<char>, a: nat|
        env_binds(prev.push(b), n, a) <==> (is_builtin_name(n, a) || defs_bind(
            ds.take(i + 1),
            n,
            a,
        )) by {
        lemma_env_binds_push(prev, b, n, a);
        lemma_defs_bind_take(ds, i, n, a);
        assert(env_binds(prev, n, a) <==> (is_builtin_name(n, a) || defs_bind(ds.take(i), n, a)));
    }
}


/// A binding as the resolution relation reads it: the name's characters,
/// the arity, and the target.
pub type REnv = Seq<(Seq<char>, nat, Target)>;

/// The readable content of an executable environment.
pub open spec fn renv_of(env: Seq<Binding>) -> REnv {
    env.map_values(|b: Binding| (b.name@, b.arity as nat, b.target))
}

/// The character sequences of a list of formal parameter names.
pub open spec fn names_of(args: Seq<String>) -> Seq<Seq<char>> {
    args.map_values(|s: String| s@)
}

/// The registered arity of each definition.
pub open spec fn arities_of(ds: Seq<Definition>) -> Seq<nat> {
    ds.map_values(|d: Definition| d.args.len() as nat)
}

/// The builtin catalog as the relation reads it: name, arity, and the
/// catalog entry each builtin name is bound to.
pub open spec fn builtin_env() -> REnv {
    seq![
        ("null"@, 0 as nat, Target::B(Builtin::New(New::Null))),
        ("true"@, 0 as nat, Target::B(Builtin::New(New::True))),
        ("false"@, 0 as nat, Target::B(Builtin::New(New::False))),
        ("not"@, 0 as nat, Target::B(Builtin::New(New::Not))),
        ("add"@, 0 as nat, Target::B(Builtin::New(New::Add))),
        ("length"@, 0 as nat, Target::B(Builtin::New(New::Length))),
        ("type"@, 0 as nat, Target::B(Builtin::New(New::Type))),
        ("empty"@, 0 as nat, Target::B(Builtin::Ref(Ref::Empty))),
        ("repeat"@, 1 as nat, Target::B(Builtin::Ref(Ref::Repeat(0)))),
        ("first"@, 1 as nat, Target::B(Builtin::Ref(Ref::First(0)))),
        ("last"@, 1 as nat, Target::B(Builtin::Ref(Ref::Last(0)))),
        ("limit"@, 2 as nat, Target::B(Builtin::Ref(Ref::Limit(0, 1)))),
        ("select"@, 1 as nat, Target::B(Builtin::Ref(Ref::Select(0)))),
        ("recurse"@, 1 as nat, Target::B(Builtin::Ref(Ref::Recurse(0)))),
        ("fold"@, 3 as nat, Target::B(Builtin::Ref(Ref::Fold(0, 1, 2)))),
    ]
}

/// The resolution environment a program is resolved against: the builtin
/// catalog, then one binding per definition in order, each to its arena
/// slot. Lookups take the newest match, so later definitions shadow
/// earlier ones and builtins of the same `(name, arity)`.
pub open spec fn the_env(ds: Seq<Definition>) -> REnv {
    builtin_env() + Seq::new(
        ds.len(),
        |j: int| (ds[j].name@, ds[j].args.len() as nat, Target::D(j as usize)),
    )
}

/// The newest formal parameter of this name, if any.
pub open spec fn formal_find(fs: Seq<Seq<char>>, n: Seq<char>) -> Option<int>
    decreases fs.len(),
{
    if fs.len() == 0 {
        None
    } else if fs.last() == n {
        Some(fs.len() - 1)
    } else {
        formal_find(fs.drop_last(), n)
    }
}

/// The newest binding of this `(name, arity)`, if any.
pub open spec fn renv_find(renv: REnv, n: Seq<char>, a: nat) -> Option<int>
    decreases renv.len(),
{
    if renv.len() == 0 {
        None
    } else if renv.last().0 == n && renv.last().1 == a {
        Some(renv.len() - 1)
    } else {
        renv_find(renv.drop_last(), n, a)
    }
}

/// What resolution returns: `c` is the resolution of `t` under the formal
/// parameter names `fs` and the environment `renv`. An arity-0 call of a
/// formal resolves to that parameter's position; any other call resolves
/// through the newest binding of its `(name, arity)`, to the instantiated
/// builtin or to the bound definition's arena index with its operands
/// resolved in place; a call bound nowhere resolves to nothing.
pub open spec fn resolves_to(t: PreFilter, fs: Seq<Seq<char>>, renv: REnv, c: Closed) -> bool
    decreases t, 2int, 0int,
{
    match t {
        PreFilter::Id => c == Closed::Id,
        PreFilter::Lit(v) => c is Lit && crate::val::val_view(c->Lit_0) == crate::val::val_view(v),
        PreFilter::Call(name, ops) => if ops.len() == 0 && formal_find(fs, name@) is Some {
            c == Closed::Arg(formal_find(fs, name@)->Some_0 as usize)
        } else {
            match renv_find(renv, name@, ops.len() as nat) {
                Some(j) => match renv[j].2 {
                    Target::B(b) => c is Builtin && builtin_resolves(b, c->Builtin_0, ops, fs, renv),
                    Target::D(idx) => c is Call && c->Call_0 == idx && c->Call_1@.len()
                        == ops@.len() && ops_resolve(ops, fs, renv, c->Call_1@, ops.len() as int),
                },
                None => false,
            }
        },
    }
}

/// The node held at one position of a resolved operand vector.
pub open spec fn node_at(cops: Vec<Rc<Closed>>, i: int) -> Closed {
    *cops@[i]
}

/// The first `k` resolved operands each resolve their source operand.
pub open spec fn ops_resolve(
    ops: Vec<PreFilter>,
    fs: Seq<Seq<char>>,
    renv: REnv,
    cops: Seq<Rc<Closed>>,
    k: int,
) -> bool
    decreases ops, 1int, k,
{
    if k <= 0 {
        true
    } else if k > ops.len() || k > cops.len() {
        false
    } else {
        resolves_to(ops[k - 1], fs, renv, *cops[k - 1]) && ops_resolve(ops, fs, renv, cops, k - 1)
    }
}

/// The instantiated builtin has the catalog entry's shape, each operand
/// slot holding the resolution of the source operand it indexes.
pub open spec fn builtin_resolves(
    b: Builtin<usize>,
    cb: Builtin<Rc<Closed>>,
    ops: Vec<PreFilter>,
    fs: Seq<Seq<char>>,
    renv: REnv,
) -> bool
    decreases ops, 1int, 1int,
{
    match (b, cb) {
        (Builtin::New(n1), Builtin::New(n2)) => n1 == n2,
        (Builtin::Ref(r1), Builtin::Ref(r2)) => ref_resolves(r1, r2, ops, fs, renv),
        _ => false,
    }
}

pub open spec fn ref_resolves(
    r: Ref<usize>,
    cr: Ref<Rc<Closed>>,
    ops: Vec<PreFilter>,
    fs: Seq<Seq<char>>,
    renv: REnv,
) -> bool
    decreases ops, 1int, 0int,
{
    match (r, cr) {
        (Ref::Empty, Ref::Empty) => true,
        (Ref::Repeat(i), Ref::Repeat(f)) => i < ops.len() && resolves_to(
            ops[i as int],
            fs,
            renv,
            *f,
        ),
        (Ref::First(i), Ref::First(f)) => i < ops.len() && resolves_to(ops[i as int], fs, renv, *f),
        (Ref::Last(i), Ref::Last(f)) => i < ops.len() && resolves_to(ops[i as int], fs, renv, *f),
        (Ref::Limit(i1, i2), Ref::Limit(f1, f2)) => i1 < ops.len() && i2 < ops.len()
            && resolves_to(ops[i1 as int], fs, renv, *f1) && resolves_to(
            ops[i2 as int],
            fs,
            renv,
            *f2,
        ),
        (Ref::Select(i), Ref::Select(f)) => i < ops.len() && resolves_to(
            ops[i as int],
            fs,
            renv,
            *f,
        ),
        (Ref::Recurse(i), Ref::Recurse(f)) => i < ops.len() && resolves_to(
            ops[i as int],
            fs,
            renv,
            *f,
        ),
        (Ref::Fold(i1, i2, i3), Ref::Fold(f1, f2, f3)) => i1 < ops.len() && i2 < ops.len() && i3
            < ops.len() && resolves_to(ops[i1 as int], fs, renv, *f1) && resolves_to(
            ops[i2 as int],
            fs,
            renv,
            *f2,
        ) && resolves_to(ops[i3 as int], fs, renv, *f3),
        _ => false,
    }
}

/// Representation validity of a resolved filter: every call site's arena
/// index is in range and carries exactly as many operands as the callee's
/// registered arity, and every formal parameter occurrence is in range.
/// Evaluation of a well-formed filter never meets an out-of-range index.
pub open spec fn closed_wf(c: Closed, arities: Seq<nat>, n_args: nat) -> bool
    decreases c, 2int, 0int,
{
    match c {
        Closed::Id => true,
        Closed::Lit(_) => true,
        Closed::Builtin(b) => match b {
            Builtin::New(_) => true,
            Builtin::Ref(r) => ref_wf_closed(r, arities, n_args),
        },
        Closed::Call(idx, cops) => idx < arities.len() && cops@.len() == arities[idx as int]
            && cops_wf(cops, arities, n_args, cops.len() as int),
        Closed::Arg(i) => i < n_args,
    }
}

pub open spec fn ref_wf_closed(r: Ref<Rc<Closed>>, arities: Seq<nat>, n_args: nat) -> bool
    decreases r, 1int, 0int,
{
    match r {
        Ref::Empty => true,
        Ref::Repeat(f) => closed_wf(*f, arities, n_args),
        Ref::First(f) => closed_wf(*f, arities, n_args),
        Ref::Last(f) => closed_wf(*f, arities, n_args),
        Ref::Limit(f1, f2) => closed_wf(*f1, arities, n_args) && closed_wf(*f2, arities, n_args),
        Ref::Select(f) => closed_wf(*f, arities, n_args),
        Ref::Recurse(f) => closed_wf(*f, arities, n_args),
        Ref::Fold(f1, f2, f3) => closed_wf(*f1, arities, n_args) && closed_wf(*f2, arities, n_args)
            && closed_wf(*f3, arities, n_args),
    }
}

pub open spec fn cops_wf(cops: Vec<Rc<Closed>>, arities: Seq<nat>, n_args: nat, k: int) -> bool
    decreases cops, 1int, k,
{
    if k <= 0 || k > cops.len() {
        true
    } else {
        closed_wf(*cops[k - 1], arities, n_args) && cops_wf(cops, arities, n_args, k - 1)
    }
}


/// A successful formal lookup returns an in-range position of that name.
pub proof fn lemma_formal_find_props(fs: Seq<Seq<char>>, n: Seq<char>)
    ensures
        (match formal_find(fs, n) {
            Some(j) => 0 <= j < fs.len() && fs[j] == n,
            None => true,
        }),
    decreases fs.len(),
{
    if fs.len() > 0 && !(fs.last() == n) {
        lemma_formal_find_props(fs.drop_last(), n);
    }
}

/// A successful environment lookup returns an in-range binding of that
/// `(name, arity)`.
pub proof fn lemma_renv_find_props(renv: REnv, n: Seq<char>, a: nat)
    ensures
        (match renv_find(renv, n, a) {
            Some(j) => 0 <= j < renv.len() && renv[j].0 == n && renv[j].1 == a,
            None => true,
        }),
    decreases renv.len(),
{
    if renv.len() > 0 && !(renv.last().0 == n && renv.last().1 == a) {
        lemma_renv_find_props(renv.drop_last(), n, a);
    }
}

/// Every binding of the builtin catalog is a catalog entry, and its
/// entry may be instantiated at its recorded arity.
pub proof fn lemma_builtin_env_targets()
    ensures
        forall|j: int|
            0 <= j < builtin_env().len() ==> (#[trigger] builtin_env()[j]).2 is B,
        forall|j: int|
            0 <= j < builtin_env().len() ==> builtin_wf(
                (#[trigger] builtin_env()[j]).2->B_0,
                builtin_env()[j].1,
            ),
{
    assert forall|j: int| 0 <= j < builtin_env().len() implies (#[trigger] builtin_env()[j]).2 is B
        && builtin_wf(builtin_env()[j].2->B_0, builtin_env()[j].1) by {
        if j == 0 {
            assert(builtin_env()[0].2 is B);
        } else if j == 1 {
            assert(builtin_env()[1].2 is B);
        } else if j == 2 {
            assert(builtin_env()[2].2 is B);
        } else if j == 3 {
            assert(builtin_env()[3].2 is B);
        } else if j == 4 {
            assert(builtin_env()[4].2 is B);
        } else if j == 5 {
            assert(builtin_env()[5].2 is B);
        } else if j == 6 {
            assert(builtin_env()[6].2 is B);
        } else if j == 7 {
            assert(builtin_env()[7].2 is B);
        } else if j == 8 {
            assert(builtin_env()[8].2 is B);
        } else if j == 9 {
            assert(builtin_env()[9].2 is B);
        } else if j == 10 {
            assert(builtin_env()[10].2 is B);
        } else if j == 11 {
            assert(builtin_env()[11].2 is B);
        } else if j == 12 {
            assert(builtin_env()[12].2 is B);
        } else if j == 13 {
            assert(builtin_env()[13].2 is B);
        } else {
            assert(builtin_env()[14].2 is B);
        }
    }
}

/// Elementwise resolution of the operands gives the packaged relation.
pub proof fn lemma_ops_resolve_of_forall(
    ops: &Vec<PreFilter>,
    fs: Seq<Seq<char>>,
    renv: REnv,
    cops: Seq<Rc<Closed>>,
    k: int,
)
    requires
        0 <= k <= ops@.len(),
        cops.len() == ops@.len(),
        forall|m: int| 0 <= m < k ==> resolves_to(ops@[m], fs, renv, *(#[trigger] cops[m])),
    ensures
        ops_resolve(*ops, fs, renv, cops, k),
    decreases k,
{
    if k > 0 {
        lemma_ops_resolve_of_forall(ops, fs, renv, cops, k - 1);
    }
}

/// A catalog entry instantiated with resolved operands is related to the
/// source operands by the resolution relation.
pub proof fn lemma_inst_resolves(
    b: Builtin<usize>,
    cb: &Builtin<Rc<Closed>>,
    ops: &Vec<PreFilter>,
    fs: Seq<Seq<char>>,
    renv: REnv,
    cops: Seq<Rc<Closed>>,
)
    requires
        builtin_wf(b, ops@.len() as nat),
        crate::functions::builtin_inst(b, *cb, cops),
        cops.len() == ops@.len(),
        forall|m: int| 0 <= m < ops@.len() ==> resolves_to(ops@[m], fs, renv, *(#[trigger] cops[m])),
    ensures
        builtin_resolves(b, *cb, *ops, fs, renv),
{
    match (&b, cb) {
        (Builtin::New(_), Builtin::New(_)) => {
        },
        (Builtin::Ref(r1), Builtin::Ref(r2)) => {
            match (r1, r2) {
                (Ref::Empty, Ref::Empty) => {
                },
                (Ref::Repeat(i), Ref::Repeat(f)) => {
                    assert(*f == cops[*i as int]);
                },
                (Ref::First(i), Ref::First(f)) => {
                    assert(*f == cops[*i as int]);
                },
                (Ref::Last(i), Ref::Last(f)) => {
                    assert(*f == cops[*i as int]);
                },
                (Ref::Limit(i1, i2), Ref::Limit(f1, f2)) => {
                    assert(*f1 == cops[*i1 as int]);
                    assert(*f2 == cops[*i2 as int]);
                },
                (Ref::Select(i), Ref::Select(f)) => {
                    assert(*f == cops[*i as int]);
                },
                (Ref::Recurse(i), Ref::Recurse(f)) => {
                    assert(*f == cops[*i as int]);
                },
                (Ref::Fold(i1, i2, i3), Ref::Fold(f1, f2, f3)) => {
                    assert(*f1 == cops[*i1 as int]);
                    assert(*f2 == cops[*i2 as int]);
                    assert(*f3 == cops[*i3 as int]);
                },
                _ => {
                    assert(false);
                },
            }
        },
        _ => {
            assert(false);
        },
    }
}

/// What resolution returns is well formed: call indices in range, operand
/// counts matching the callee's registered arity, formal positions in
/// range.
pub proof fn lemma_resolves_to_wf(t: PreFilter, fs: Seq<Seq<char>>, ds: Seq<Definition>, c: Closed)
    requires
        ds.len() <= usize::MAX,
        resolves_to(t, fs, the_env(ds), c),
    ensures
        closed_wf(c, arities_of(ds), fs.len() as nat),
    decreases t, 2int, 0int,
{
    let renv = the_env(ds);
    match &t {
        PreFilter::Id => {
        },
        PreFilter::Lit(_) => {
        },
        PreFilter::Call(name, ops) => {
            if ops.len() == 0 && formal_find(fs, name@) is Some {
                lemma_formal_find_props(fs, name@);
            } else {
                lemma_renv_find_props(renv, name@, ops@.len() as nat);
                let j = renv_find(renv, name@, ops@.len() as nat)->Some_0;
                lemma_builtin_env_targets();
                match renv[j].2 {
                    Target::B(b) => {
                        lemma_builtin_resolves_wf(b, c->Builtin_0, *ops, fs, ds);
                    },
                    Target::D(idx) => {
                        assert(j >= builtin_env().len());
                        assert(renv[j] == (ds[j - 15].name@, ds[j - 15].args.len() as nat,
                            Target::D((j - 15) as usize)));
                        assert(idx == j - 15 && idx < ds.len());
                        assert(arities_of(ds)[idx as int] == ds[idx as int].args.len() as nat);
                        lemma_cops_resolve_wf(*ops, fs, ds, c->Call_1, ops@.len() as int);
                    },
                }
            }
        },
    }
}

/// Well-formedness of each resolved operand, elementwise.
pub proof fn lemma_cops_resolve_wf(
    ops: Vec<PreFilter>,
    fs: Seq<Seq<char>>,
    ds: Seq<Definition>,
    cops: Vec<Rc<Closed>>,
    k: int,
)
    requires
        ds.len() <= usize::MAX,
        ops_resolve(ops, fs, the_env(ds), cops@, k),
    ensures
        cops_wf(cops, arities_of(ds), fs.len() as nat, k),
    decreases ops, 1int, k,
{
    if k > 0 {
        lemma_resolves_to_wf(ops[k - 1], fs, ds, node_at(cops, k - 1));
        lemma_cops_resolve_wf(ops, fs, ds, cops, k - 1);
    }
}

/// Well-formedness of an instantiated builtin's operand slots.
pub proof fn lemma_builtin_resolves_wf(
    b: Builtin<usize>,
    cb: Builtin<Rc<Closed>>,
    ops: Vec<PreFilter>,
    fs: Seq<Seq<char>>,
    ds: Seq<Definition>,
)
    requires
        ds.len() <= usize::MAX,
        builtin_resolves(b, cb, ops, fs, the_env(ds)),
    ensures
        (match cb {
            Builtin::New(_) => true,
            Builtin::Ref(r) => ref_wf_closed(r, arities_of(ds), fs.len() as nat),
        }),
    decreases ops, 1int, 1int,
{
    match (&b, &cb) {
        (Builtin::Ref(r1), Builtin::Ref(r2)) => {
            match (r1, r2) {
                (Ref::Repeat(i), Ref::Repeat(_)) => {
                    lemma_resolves_to_wf(ops[*i as int], fs, ds, crate::eval::deref_node(
                        &r2->Repeat_0,
                    ));
                },
                (Ref::First(i), Ref::First(_)) => {
                    lemma_resolves_to_wf(ops[*i as int], fs, ds, crate::eval::deref_node(
                        &r2->First_0,
                    ));
                },
                (Ref::Last(i), Ref::Last(_)) => {
                    lemma_resolves_to_wf(ops[*i as int], fs, ds, crate::eval::deref_node(
                        &r2->Last_0,
                    ));
                },
                (Ref::Limit(i1, i2), Ref::Limit(_, _)) => {
                    lemma_resolves_to_wf(ops[*i1 as int], fs, ds, crate::eval::deref_node(
                        &r2->Limit_0,
                    ));
                    lemma_resolves_to_wf(ops[*i2 as int], fs, ds, crate::eval::deref_node(
                        &r2->Limit_1,
                    ));
                },
                (Ref::Select(i), Ref::Select(_)) => {
                    lemma_resolves_to_wf(ops[*i as int], fs, ds, crate::eval::deref_node(
                        &r2->Select_0,
                    ));
                },
                (Ref::Recurse(i), Ref::Recurse(_)) => {
                    lemma_resolves_to_wf(ops[*i as int], fs, ds, crate::eval::deref_node(
                        &r2->Recurse_0,
                    ));
                },
                (Ref::Fold(i1, i2, i3), Ref::Fold(_, _, _)) => {
                    lemma_resolves_to_wf(ops[*i1 as int], fs, ds, crate::eval::deref_node(
                        &r2->Fold_0,
                    ));
                    lemma_resolves_to_wf(ops[*i2 as int], fs, ds, crate::eval::deref_node(
                        &r2->Fold_1,
                    ));
                    lemma_resolves_to_wf(ops[*i3 as int], fs, ds, crate::eval::deref_node(
                        &r2->Fold_2,
                    ));
                },
                _ => {
                },
            }
        },
        _ => {
        },
    }
}

/// The builtin catalog, seeding the resolution environment: every
/// `(name, arity)` a program may call without defining it.
pub fn builtins() -> (env: Vec<Binding>)
    ensures
        env_wf(env@),
        renv_of(env@) == builtin_env(),
        forall|n: Seq<char>, a: nat|
            #![trigger env_binds(env@, n, a)]
            env_binds(env@, n, a) <==> is_builtin_name(n, a),
{
    let mut env: Vec<Binding> = Vec::new();
    env.push(Binding { name: "null".to_owned(), arity: 0, target: Target::B(Builtin::New(New::Null)) });
    env.push(Binding { name: "true".to_owned(), arity: 0, target: Target::B(Builtin::New(New::True)) });
    env.push(Binding { name: "false".to_owned(), arity: 0, target: Target::B(Builtin::New(New::False)) });
    env.push(Binding { name: "not".to_owned(), arity: 0, target: Target::B(Builtin::New(New::Not)) });
    env.push(Binding { name: "add".to_owned(), arity: 0, target: Target::B(Builtin::New(New::Add)) });
    env.push(Binding { name: "length".to_owned(), arity: 0, target: Target::B(Builtin::New(New::Length)) });
    env.push(Binding { name: "type".to_owned(), arity: 0, target: Target::B(Builtin::New(New::Type)) });
    env.push(Binding { name: "empty".to_owned(), arity: 0, target: Target::B(Builtin::Ref(Ref::Empty)) });
    env.push(Binding { name: "repeat".to_owned(), arity: 1, target: Target::B(Builtin::Ref(Ref::Repeat(0))) });
    env.push(Binding { name: "first".to_owned(), arity: 1, target: Target::B(Builtin::Ref(Ref::First(0))) });
    env.push(Binding { name: "last".to_owned(), arity: 1, target: Target::B(Builtin::Ref(Ref::Last(0))) });
    env.push(Binding { name: "limit".to_owned(), arity: 2, target: Target::B(Builtin::Ref(Ref::Limit(0, 1))) });
    env.push(Binding { name: "select".to_owned(), arity: 1, target: Target::B(Builtin::Ref(Ref::Select(0))) });
    env.push(Binding { name: "recurse".to_owned(), arity: 1, target: Target::B(Builtin::Ref(Ref::Recurse(0))) });
    env.push(Binding { name: "fold".to_owned(), arity: 3, target: Target::B(Builtin::Ref(Ref::Fold(0, 1, 2))) });
    proof {
        assert forall|n: Seq<char>, a: nat| env_binds(env@, n, a) implies is_builtin_name(
            n,
            a,
        ) by {
            let j = choose|j: int|
                0 <= j < env@.len() && env@[j].name@ == n && env@[j].arity as nat == a;
            assert(0 <= j < 15);
        }
        assert(renv_of(env@) =~= builtin_env());
        assert forall|n: Seq<char>, a: nat| is_builtin_name(n, a) implies env_binds(
            env@,
            n,
            a,
        ) by {
            if n == "null"@ && a == 0 {
                assert(env@[0].name@ == n && env@[0].arity as nat == a);
            } else if n == "true"@ && a == 0 {
                assert(env@[1].name@ == n && env@[1].arity as nat == a);
            } else if n == "false"@ && a == 0 {
                assert(env@[2].name@ == n && env@[2].arity as nat == a);
            } else if n == "not"@ && a == 0 {
                assert(env@[3].name@ == n && env@[3].arity as nat == a);
            } else if n == "add"@ && a == 0 {
                assert(env@[4].name@ == n && env@[4].arity as nat == a);
            } else if n == "length"@ && a == 0 {
                assert(env@[5].name@ == n && env@[5].arity as nat == a);
            } else if n == "type"@ && a == 0 {
                assert(env@[6].name@ == n && env@[6].arity as nat == a);
            } else if n == "empty"@ && a == 0 {
                assert(env@[7].name@ == n && env@[7].arity as nat == a);
            } else if n == "repeat"@ && a == 1 {
                assert(env@[8].name@ == n && env@[8].arity as nat == a);
            } else if n == "first"@ && a == 1 {
                assert(env@[9].name@ == n && env@[9].arity as nat == a);
            } else if n == "last"@ && a == 1 {
                assert(env@[10].name@ == n && env@[10].arity as nat == a);
            } else if n == "limit"@ && a == 2 {
                assert(env@[11].name@ == n && env@[11].arity as nat == a);
            } else if n == "select"@ && a == 1 {
                assert(env@[12].name@ == n && env@[12].arity as nat == a);
            } else if n == "recurse"@ && a == 1 {
                assert(env@[13].name@ == n && env@[13].arity as nat == a);
            } else if n == "fold"@ && a == 3 {
                assert(env@[14].name@ == n && env@[14].arity as nat == a);
            }
        }
    }
    env
}

/// Resolve one filter against the formal parameter names in scope and
/// the environment. On failure the failed pair occurs in the filter and
/// is bound neither by the environment nor, at arity zero, the formals.
#[verifier::loop_isolation(false)]
pub fn open_filter(t: &PreFilter, formals: &Vec<String>, env: &Vec<Binding>) -> (r: Result<Closed, ResolutionError>)
    requires
        env_wf(env@),
    ensures
        (match r {
            Err(ResolutionError::Unbound(n, a)) => pre_mentions(*t, n@, a as nat) && !env_binds(
                env@,
                n@,
                a as nat,
            ) && (a == 0 ==> formal_find(names_of(formals@), n@) is None) && first_unbound(
                *t,
                names_of(formals@),
                renv_of(env@),
            ) == Some((n@, a as nat)),
            Ok(c) => resolves_to(*t, names_of(formals@), renv_of(env@), c) && first_unbound(
                *t,
                names_of(formals@),
                renv_of(env@),
            ) is None,
        }),
    decreases *t, 0int, 0int,
{
    let ghost fs = names_of(formals@);
    let ghost renv = renv_of(env@);
    match t {
        PreFilter::Id => Ok(Closed::Id),
        PreFilter::Lit(v) => Ok(Closed::Lit(v.dup())),
        PreFilter::Call(name, ops) => {
            if ops.len() == 0 {
                let mut j: usize = formals.len();
                proof {
                    assert(fs.take(j as int) =~= fs);
                }
                while j > 0
                    invariant
                        j <= formals@.len(),
                        formal_find(fs, name@) == formal_find(fs.take(j as int), name@),
                    decreases j,
                {
                    j = j - 1;
                    if str_eq(name.as_str(), formals[j].as_str()) {
                        proof {
                            assert(fs.take(j as int + 1).last() == fs[j as int]);
                            assert(formal_find(fs, name@) == Some(j as int));
                        }
                        return Ok(Closed::Arg(j));
                    }
                    proof {
                        assert(fs.take(j as int + 1).drop_last() =~= fs.take(j as int));
                    }
                }
                proof {
                    assert(fs.take(0) =~= Seq::<Seq<char>>::empty());
                    assert(formal_find(fs, name@) is None);
                }
            }
            let cops = open_ops(ops, formals, env)?;
            let mut j: usize = env.len();
            proof {
                assert(renv.take(j as int) =~= renv);
            }
            while j > 0
                invariant
                    j <= env@.len(),
                    env_wf(env@),
                    forall|i: int|
                        j as int <= i < env@.len() ==> !(#[trigger] env@[i].name@ == name@
                            && env@[i].arity == ops@.len()),
                    renv_find(renv, name@, ops@.len() as nat) == renv_find(
                        renv.take(j as int),
                        name@,
                        ops@.len() as nat,
                    ),
                decreases j,
            {
                j = j - 1;
                if env[j].arity == ops.len() && str_eq(name.as_str(), env[j].name.as_str()) {
                    proof {
                        assert(renv.take(j as int + 1).last() == renv[j as int]);
                        assert(renv[j as int].0 == name@ && renv[j as int].1 == ops@.len() as nat);
                        assert(renv_find(renv, name@, ops@.len() as nat) == Some(j as int));
                        assert(renv[j as int].2 == env@[j as int].target);
                    }
                    match &env[j].target {
                        Target::B(b) => {
                            proof {
                                assert(builtin_wf(env@[j as int].target->B_0, ops@.len() as nat));
                            }
                            let cb = b.map(&cops);
                            proof {
                                lemma_inst_resolves(
                                    env@[j as int].target->B_0,
                                    &cb,
                                    ops,
                                    fs,
                                    renv,
                                    cops@,
                                );
                            }
                            return Ok(Closed::Builtin(cb));
                        },
                        Target::D(idx) => {
                            proof {
                                lemma_ops_resolve_of_forall(ops, fs, renv, cops@, ops@.len() as int);
                            }
                            return Ok(Closed::Call(*idx, cops));
                        },
                    }
                }
                proof {
                    assert(renv.take(j as int + 1).drop_last() =~= renv.take(j as int));
                    assert(!(renv.take(j as int + 1).last().0 == name@ && renv.take(
                        j as int + 1,
                    ).last().1 == ops@.len() as nat));
                }
            }
            proof {
                assert(renv.take(0) =~= Seq::<(Seq<char>, nat, Target)>::empty());
                assert(renv_find(renv, name@, ops@.len() as nat) is None);
            }
            Err(ResolutionError::Unbound(name.as_str().to_owned(), ops.len()))
        },
    }
}

/// Resolve every operand of a call, left to right, stopping at the first
/// failure.
#[verifier::loop_isolation(false)]
pub fn open_ops(ops: &Vec<PreFilter>, formals: &Vec<String>, env: &Vec<Binding>) -> (r: Result<Vec<Rc<Closed>>, ResolutionError>)
    requires
        env_wf(env@),
    ensures
        (match r {
            Err(ResolutionError::Unbound(n, a)) => mentions_in(
                *ops,
                ops@.len() as int,
                n@,
                a as nat,
            ) && !env_binds(env@, n@, a as nat) && (a == 0 ==> formal_find(
                names_of(formals@),
                n@,
            ) is None) && first_unbound_ops(*ops, names_of(formals@), renv_of(env@), 0) == Some(
                (n@, a as nat),
            ),
            Ok(cops) => cops@.len() == ops@.len() && first_unbound_ops(
                *ops,
                names_of(formals@),
                renv_of(env@),
                0,
            ) is None && forall|m: int|
                0 <= m < ops@.len() ==> resolves_to(
                    ops@[m],
                    names_of(formals@),
                    renv_of(env@),
                    *(#[trigger] cops@[m]),
                ),
        }),
    decreases *ops, 1int, 0int,
{
    let ghost fs = names_of(formals@);
    let ghost renv = renv_of(env@);
    let mut out: Vec<Rc<Closed>> = Vec::new();
    let mut i: usize = 0;
    while i < ops.len()
        invariant
            i <= ops@.len(),
            out@.len() == i as int,
            env_wf(env@),
            first_unbound_ops(*ops, fs, renv, 0) == first_unbound_ops(*ops, fs, renv, i as int),
            forall|m: int|
                0 <= m < i as int ==> resolves_to(
                    ops@[m],
                    names_of(formals@),
                    renv_of(env@),
                    *(#[trigger] out@[m]),
                ),
        decreases ops@.len() - i,
    {
        proof {
            vstd::std_specs::vec::axiom_vec_index_decreases(*ops, i as int);
        }
        match open_filter(&ops[i], formals, env) {
            Ok(c) => {
                out.push(Rc::new(c));
            },
            Err(e) => {
                proof {
                    assert(mentions_in(*ops, i as int + 1, e->Unbound_0@, e->Unbound_1 as nat));
                    lemma_mentions_in_mono(
                        *ops,
                        i as int + 1,
                        ops@.len() as int,
                        e->Unbound_0@,
                        e->Unbound_1 as nat,
                    );
                }
                return Err(e);
            },
        }
        i = i + 1;
    }
    Ok(out)
}

impl Main {
    /// Resolve the program against a module: seed the environment with
    /// the builtin catalog, bind every definition (module first, the
    /// program's own next, later bindings shadowing earlier ones of the
    /// same name and arity) to an arena slot before any body is
    /// resolved, then resolve every body and the top-level term against
    /// [`the_env`], lookups taking the newest binding.
    ///
    /// On success the returned filter *is* the resolution of the program:
    /// its term and every arena slot stand in [`resolves_to`] to the
    /// corresponding source filter, and all of them are well formed
    /// ([`closed_wf`]), so evaluation never meets an out-of-range call or
    /// parameter index. On failure the reported `(name, arity)` occurs in
    /// some definition body or in the term, and is bound by no builtin,
    /// no definition, and (at arity zero) no formal parameter in scope at
    /// the failed call.
    #[verifier::loop_isolation(false)]
    pub fn open(self, module: Module) -> (r: Result<ClosedFilter, ResolutionError>)
        ensures
            (match r {
                Err(ResolutionError::Unbound(n, a)) => (defs_mention(module.0.0@, n@, a as nat)
                    || defs_mention(self.defs.0@, n@, a as nat) || pre_mentions(
                    self.term,
                    n@,
                    a as nat,
                )) && !is_builtin_name(n@, a as nat) && !defs_bind(module.0.0@, n@, a as nat)
                    && !defs_bind(self.defs.0@, n@, a as nat) && program_first_unbound(
                    module.0.0@ + self.defs.0@,
                    self.term,
                ) == Some((n@, a as nat)),
                Ok(cf) => {
                    &&& program_first_unbound(module.0.0@ + self.defs.0@, self.term) is None
                    &&& cf.arena@.len() == module.0.0@.len() + self.defs.0@.len()
                    &&& resolves_to(
                        self.term,
                        Seq::empty(),
                        the_env(module.0.0@ + self.defs.0@),
                        *cf.term,
                    )
                    &&& closed_wf(*cf.term, arities_of(module.0.0@ + self.defs.0@), 0)
                    &&& forall|j: int|
                        0 <= j < cf.arena@.len() ==> resolves_to(
                            (module.0.0@ + self.defs.0@)[j].term,
                            names_of((module.0.0@ + self.defs.0@)[j].args@),
                            the_env(module.0.0@ + self.defs.0@),
                            *(#[trigger] cf.arena@[j]),
                        )
                    &&& forall|j: int|
                        0 <= j < cf.arena@.len() ==> closed_wf(
                            *(#[trigger] cf.arena@[j]),
                            arities_of(module.0.0@ + self.defs.0@),
                            (module.0.0@ + self.defs.0@)[j].args@.len() as nat,
                        )
                },
            }),
    {
        let mut env = builtins();
        let mut defs = module.0.0;
        let ghost mdefs = defs@;
        let mut own = self.defs.0;
        let ghost odefs = own@;
        defs.append(&mut own);
        proof {
            assert(defs@ =~= mdefs + odefs);
        }
        proof {
            assert(defs@.take(0) =~= Seq::<Definition>::empty());
            assert forall|n: Seq<char>, a: nat|
                env_binds(env@, n, a) <==> (is_builtin_name(n, a) || defs_bind(
                    defs@.take(0),
                    n,
                    a,
                )) by {
                assert(!defs_bind(defs@.take(0), n, a));
            }
        }
        proof {
            assert(the_env(defs@.take(0)) =~= builtin_env());
        }
        let mut arena: Vec<Rc<Closed>> = Vec::new();
        let mut i: usize = 0;
        while i < defs.len()
            invariant
                i <= defs@.len(),
                arena@.len() == i as int,
                env_wf(env@),
                env_tracks(env@, defs@, i as int),
                renv_of(env@) == the_env(defs@.take(i as int)),
            decreases defs@.len() - i,
        {
            arena.push(Rc::new(Closed::Id));
            let ghost prev = env@;
            let b = Binding {
                name: defs[i].name.as_str().to_owned(),
                arity: defs[i].args.len(),
                target: Target::D(i),
            };
            proof {
                assert(b.name@ == defs@[i as int].name@);
                assert(b.arity as nat == defs@[i as int].args.len() as nat);
                assert(env_tracks(env@, defs@, i as int));
            }
            env.push(b);
            proof {
                lemma_env_tracks_push(prev, b, defs@, i as int);
                assert(env@ == prev.push(b));
                assert(renv_of(env@) =~= renv_of(prev).push((b.name@, b.arity as nat, b.target)));
                assert(renv_of(env@) =~= the_env(defs@.take(i as int + 1)));
            }
            i = i + 1;
        }
        proof {
            assert(defs@.take(defs@.len() as int) =~= defs@);
        }
        let mut i: usize = 0;
        while i < defs.len()
            invariant
                i <= defs@.len(),
                defs@ == mdefs + odefs,
                arena@.len() == defs@.len(),
                env_wf(env@),
                env_tracks(env@, defs@, defs@.len() as int),
                renv_of(env@) == the_env(defs@),
                defs_first_unbound(defs@, the_env(defs@), 0) == defs_first_unbound(
                    defs@,
                    the_env(defs@),
                    i as int,
                ),
                forall|m: int|
                    0 <= m < i as int ==> resolves_to(
                        defs@[m].term,
                        names_of(defs@[m].args@),
                        the_env(defs@),
                        *(#[trigger] arena@[m]),
                    ),
            decreases defs@.len() - i,
        {
            match open_filter(&defs[i].term, &defs[i].args, &env) {
                Ok(body) => {
                    arena.set(i, Rc::new(body));
                },
                Err(e) => {
                    proof {
                        let ghost j = i as int;
                        let ghost n = e->Unbound_0@;
                        let ghost a = e->Unbound_1 as nat;
                        if j < mdefs.len() {
                            assert(mdefs[j] == defs@[j]);
                            assert(pre_mentions(mdefs[j].term, n, a));
                        } else {
                            assert(odefs[j - mdefs.len()] == defs@[j]);
                            assert(pre_mentions(odefs[j - mdefs.len()].term, n, a));
                        }
                        assert(!env_binds(env@, n, a));
                        assert(!is_builtin_name(n, a) && !defs_bind(
                            defs@.take(defs@.len() as int),
                            n,
                            a,
                        ));
                        lemma_defs_bind_concat(mdefs, odefs, n, a);
                    }
                    return Err(e);
                },
            }
            i = i + 1;
        }
        let no_formals: Vec<String> = Vec::new();
        match open_filter(&self.term, &no_formals, &env) {
            Ok(term) => {
                proof {
                    assert(names_of(no_formals@) =~= Seq::<Seq<char>>::empty());
                    lemma_resolves_to_wf(self.term, Seq::empty(), defs@, term);
                    assert forall|j: int| 0 <= j < arena@.len() implies closed_wf(
                        *(#[trigger] arena@[j]),
                        arities_of(defs@),
                        defs@[j].args@.len() as nat,
                    ) by {
                        lemma_resolves_to_wf(
                            defs@[j].term,
                            names_of(defs@[j].args@),
                            defs@,
                            node_at(arena, j),
                        );
                        assert(node_at(arena, j) == *(arena@[j]));
                    }
                }
                Ok(ClosedFilter { arena, term: Rc::new(term) })
            },
            Err(e) => {
                proof {
                    let ghost n = e->Unbound_0@;
                    let ghost a = e->Unbound_1 as nat;
                    assert(names_of(no_formals@) =~= Seq::<Seq<char>>::empty());
                    assert(!env_binds(env@, n, a));
                    assert(!is_builtin_name(n, a) && !defs_bind(
                        defs@.take(defs@.len() as int),
                        n,
                        a,
                    ));
                    lemma_defs_bind_concat(mdefs, odefs, n, a);
                }
                Err(e)
            },
        }
    }
}

} // verus!
