//! Type inference: the type of an expression in an environment, with a fresh
//! type variable for every parameter of a lambda.

use crate::ast::{binders, lemma_arrow_view, views, Expr, Ty, Type};
use crate::error::{Failure, TyckError};
use itertools::multizip;
use vstd::hash_map::StringHashMap;
use vstd::prelude::*;

verus! {

/// The declared types of the names of a module.
pub struct Context {
    pub types: StringHashMap<Type>,
}

impl View for Context {
    type V = Map<Seq<char>, Ty>;

    open spec fn view(&self) -> Map<Seq<char>, Ty> {
        Map::new(|name: Seq<char>| self.types@.contains_key(name), |name: Seq<char>| self.types@[name]@)
    }
}

impl Context {
    /// The environment without any name.
    pub fn new() -> (ctx: Context)
        ensures
            ctx@ == Map::<Seq<char>, Ty>::empty(),
    {
        let ctx = Context { types: StringHashMap::new() };
        assert(ctx@ =~= Map::<Seq<char>, Ty>::empty());
        ctx
    }

    /// Declares `name` to have the type `ty`; an earlier declaration of the
    /// name is replaced.
    pub fn declare(&mut self, name: String, ty: Type)
        ensures
            final(self)@ == old(self)@.insert(name@, ty@),
    {
        self.types.insert(name, ty);
        assert(self@ =~= old(self)@.insert(name@, ty@));
    }

    /// The declared type of `name`, if it has one.
    pub fn lookup(&self, name: &String) -> (found: Option<Type>)
        ensures
            match found {
                Some(ty) => self@.contains_key(name@) && self@[name@] == ty@,
                None => !self@.contains_key(name@),
            },
    {
        match self.types.get(name.as_str()) {
            Some(ty) => Some(ty.clone()),
            None => None,
        }
    }
}

/// The environment with each of the names bound to the type variable beside
/// it, one after the other: a later binding of a name hides an earlier one.
pub open spec fn extend(env: Map<Seq<char>, Ty>, locals: Seq<(Seq<char>, u64)>) -> Map<
    Seq<char>,
    Ty,
>
    decreases locals.len(),
{
    if locals.len() == 0 {
        env
    } else {
        extend(env, locals.drop_last()).insert(locals.last().0, Ty::Free(locals.last().1))
    }
}

/// The names of the parameters, each beside the type variable made for it:
/// `fresh` for the first, and one more for each parameter after it.
pub open spec fn parameter_bindings(params: Seq<String>, fresh: nat) -> Seq<(Seq<char>, u64)> {
    Seq::new(params.len(), |i: int| (params[i]@, (fresh + i) as u64))
}

/// The type variables made for `count` parameters, from `fresh` on.
pub open spec fn fresh_types(fresh: nat, count: nat) -> Seq<Ty> {
    Seq::new(count, |i: int| Ty::Free((fresh + i) as u64))
}

/// The type of the expression in the environment, where `fresh` is the first
/// type variable not yet given out; or the diagnostic for the name that has
/// no binding.
pub open spec fn inferred(env: Map<Seq<char>, Ty>, e: Expr, fresh: nat) -> Result<Ty, Failure>
    decreases e, 0nat,
{
    match e {
        Expr::Id(range, name) => if env.contains_key(name@) {
            Ok(env[name@])
        } else {
            Err(Failure::IdentifierNotFound { name: name@, range })
        },
        Expr::Int(_, _) => Ok(Ty::Base("i64"@)),
        Expr::Lambda(_, params, body) => inferred_lambda(env, params@, *body, fresh),
    }
}

/// The type of the lambda with the given parameters and body: an arrow from
/// the parameters' fresh variables to the type of the body.
pub open spec fn inferred_lambda(
    env: Map<Seq<char>, Ty>,
    params: Seq<String>,
    body: Expr,
    fresh: nat,
) -> Result<Ty, Failure>
    decreases body, 1nat,
{
    match inferred(extend(env, parameter_bindings(params, fresh)), body, fresh + params.len()) {
        Ok(ret) => Ok(Ty::Arrow(fresh_types(fresh, params.len()), Box::new(ret))),
        Err(failure) => Err(failure),
    }
}

/// The models of names and type variables, pair by pair.
pub open spec fn local_views(locals: Seq<(String, u64)>) -> Seq<(Seq<char>, u64)> {
    Seq::new(locals.len(), |i: int| (locals[i].0@, locals[i].1))
}

/// Binding one sequence of names and then another is binding the two in a
/// row.
pub proof fn lemma_extend_concat(
    env: Map<Seq<char>, Ty>,
    first: Seq<(Seq<char>, u64)>,
    second: Seq<(Seq<char>, u64)>,
)
    ensures
        extend(extend(env, first), second) == extend(env, first + second),
    decreases second.len(),
{
    if second.len() == 0 {
        assert(first + second =~= first);
    } else {
        lemma_extend_concat(env, first, second.drop_last());
        assert((first + second).drop_last() =~= first + second.drop_last());
    }
}

/// A name stands for the variable of its last binding.
pub proof fn lemma_extend_hit(
    env: Map<Seq<char>, Ty>,
    locals: Seq<(Seq<char>, u64)>,
    name: Seq<char>,
    at: int,
)
    requires
        0 <= at < locals.len(),
        locals[at].0 == name,
        forall|j: int| at < j < locals.len() ==> (#[trigger] locals[j]).0 != name,
    ensures
        extend(env, locals).contains_key(name),
        extend(env, locals)[name] == Ty::Free(locals[at].1),
    decreases locals.len(),
{
    if at < locals.len() - 1 {
        assert(locals[locals.len() - 1].0 != name);
        lemma_extend_hit(env, locals.drop_last(), name, at);
    }
}

/// A name that is not bound stands for what it stood for.
pub proof fn lemma_extend_miss(
    env: Map<Seq<char>, Ty>,
    locals: Seq<(Seq<char>, u64)>,
    name: Seq<char>,
)
    requires
        forall|j: int| 0 <= j < locals.len() ==> (#[trigger] locals[j]).0 != name,
    ensures
        extend(env, locals).contains_key(name) == env.contains_key(name),
        extend(env, locals)[name] == env[name],
    decreases locals.len(),
{
    if locals.len() > 0 {
        assert(locals[locals.len() - 1].0 != name);
        lemma_extend_miss(env, locals.drop_last(), name);
    }
}

/// Pairs each name with the identifier at the same position, by
/// `itertools::multizip`, which yields a tuple for every position that both
/// sequences have and stops where the shorter one ends.
#[verifier::external_body]
fn pair_up(names: &Vec<String>, ids: &Vec<u64>) -> (pairs: Vec<(String, u64)>)
    ensures
        pairs.len() == if names.len() <= ids.len() {
            names.len()
        } else {
            ids.len()
        },
        forall|i: int|
            0 <= i < pairs.len() ==> (#[trigger] pairs[i]).0@ == names[i]@ && pairs[i].1 == ids[i],
{
    multizip((names, ids)).map(|(name, id)| (name.clone(), *id)).collect()
}

/// The type that `name` stands for where the names of `locals` hide those of
/// `ctx`.
fn resolve_name(ctx: &Context, locals: &Vec<(String, u64)>, name: &String) -> (found: Option<Type>)
    ensures
        match found {
            Some(ty) => extend(ctx@, local_views(locals@)).contains_key(name@) && extend(
                ctx@,
                local_views(locals@),
            )[name@] == ty@,
            None => !extend(ctx@, local_views(locals@)).contains_key(name@),
        },
{
    let mut i: usize = locals.len();
    while i > 0
        invariant
            i <= locals.len(),
            forall|j: int| i <= j < locals.len() ==> (#[trigger] local_views(locals@)[j]).0 != name@,
        decreases i,
    {
        i -= 1;
        if locals[i].0 == *name {
            proof {
                lemma_extend_hit(ctx@, local_views(locals@), name@, i as int);
            }
            return Some(Type::Free(locals[i].1));
        }
    }
    proof {
        lemma_extend_miss(ctx@, local_views(locals@), name@);
    }
    ctx.lookup(name)
}

/// The type of the lambda with the given parameters and body, where the
/// names of `locals` hide those of `ctx`.
fn infer_lambda(
    ctx: &Context,
    locals: Vec<(String, u64)>,
    params: &Vec<String>,
    body: &Expr,
    fresh: u64,
) -> (res: Result<(Type, u64), TyckError>)
    requires
        fresh + params.len() + binders(*body) <= u64::MAX,
    ensures
        match res {
            Ok((ty, next)) => inferred_lambda(
                extend(ctx@, local_views(locals@)),
                params@,
                *body,
                fresh as nat,
            ) == Ok::<_, Failure>(ty@) && next == fresh + params.len() + binders(*body),
            Err(e) => inferred_lambda(
                extend(ctx@, local_views(locals@)),
                params@,
                *body,
                fresh as nat,
            ) == Err::<Ty, _>(e@),
        },
    decreases body, 1nat,
{
    let mut ids: Vec<u64> = Vec::new();
    let mut fresh_list: Vec<Type> = Vec::new();
    let mut i: usize = 0;
    while i < params.len()
        invariant
            i <= params.len(),
            fresh + params.len() <= u64::MAX,
            ids.len() == i,
            fresh_list.len() == i,
            forall|j: int| 0 <= j < i ==> #[trigger] ids[j] == fresh + j,
            forall|j: int| 0 <= j < i ==> (#[trigger] fresh_list[j])@ == Ty::Free((fresh + j) as u64),
        decreases params.len() - i,
    {
        let id: u64 = fresh + i as u64;
        ids.push(id);
        fresh_list.push(Type::Free(id));
        i += 1;
    }
    let mut pairs = pair_up(params, &ids);
    let mut scope = locals;
    scope.append(&mut pairs);
    proof {
        assert(local_views(scope@) =~= local_views(locals@) + parameter_bindings(
            params@,
            fresh as nat,
        ));
        lemma_extend_concat(ctx@, local_views(locals@), parameter_bindings(params@, fresh as nat));
        assert(views(fresh_list@) =~= fresh_types(fresh as nat, params.len() as nat));
    }
    match infer_scoped(ctx, scope, body, fresh + params.len() as u64) {
        Ok((ret, next)) => {
            proof {
                lemma_arrow_view(fresh_list, Box::new(ret));
            }
            Ok((Type::Arrow(fresh_list, Box::new(ret)), next))
        },
        Err(e) => Err(e),
    }
}

/// The type of the expression where the names of `locals` hide those of
/// `ctx`.
fn infer_scoped(ctx: &Context, locals: Vec<(String, u64)>, expr: &Expr, fresh: u64) -> (res: Result<
    (Type, u64),
    TyckError,
>)
    requires
        fresh + binders(*expr) <= u64::MAX,
    ensures
        match res {
            Ok((ty, next)) => inferred(extend(ctx@, local_views(locals@)), *expr, fresh as nat)
                == Ok::<_, Failure>(ty@) && next == fresh + binders(*expr),
            Err(e) => inferred(extend(ctx@, local_views(locals@)), *expr, fresh as nat) == Err::<
                Ty,
                _,
            >(e@),
        },
    decreases expr, 0nat,
{
    match expr {
        Expr::Id(range, name) => match resolve_name(ctx, &locals, name) {
            Some(ty) => Ok((ty, fresh)),
            None => Err(TyckError::IdentifierNotFound { name: name.clone(), range: *range }),
        },
        Expr::Int(_, _) => Ok((Type::Base("i64".to_owned()), fresh)),
        Expr::Lambda(_, params, body) => infer_lambda(ctx, locals, params, body, fresh),
    }
}

/// Infers the type of the procedure with the given parameters and body in
/// the environment: that of the lambda made of the two. `fresh` is the first
/// type variable not yet given out; beside the type comes the first one not
/// given out afterwards.
pub fn infer_procedure(ctx: &Context, params: &Vec<String>, body: &Expr, fresh: u64) -> (res: Result<
    (Type, u64),
    TyckError,
>)
    requires
        fresh + params.len() + binders(*body) <= u64::MAX,
    ensures
        match res {
            Ok((ty, next)) => inferred_lambda(ctx@, params@, *body, fresh as nat) == Ok::<
                _,
                Failure,
            >(ty@) && next == fresh + params.len() + binders(*body),
            Err(e) => inferred_lambda(ctx@, params@, *body, fresh as nat) == Err::<Ty, _>(e@),
        },
{
    let locals: Vec<(String, u64)> = Vec::new();
    assert(local_views(locals@) =~= Seq::empty());
    infer_lambda(ctx, locals, params, body, fresh)
}

/// Infers the type of the expression in the environment. `fresh` is the
/// first type variable not yet given out; beside the type comes the first
/// one not given out afterwards.
pub fn infer(ctx: &Context, expr: &Expr, fresh: u64) -> (res: Result<(Type, u64), TyckError>)
    requires
        fresh + binders(*expr) <= u64::MAX,
    ensures
        match res {
            Ok((ty, next)) => inferred(ctx@, *expr, fresh as nat) == Ok::<_, Failure>(ty@) && next
                == fresh + binders(*expr),
            Err(e) => inferred(ctx@, *expr, fresh as nat) == Err::<Ty, _>(e@),
        },
{
    let locals: Vec<(String, u64)> = Vec::new();
    assert(local_views(locals@) =~= Seq::empty());
    infer_scoped(ctx, locals, expr, fresh)
}

} // verus!
