//! The module checker: it collects the declarations, then checks the
//! definitions in source order and stops at the first that fails.

use crate::ast::{binders, Expr, File, Range, Top, Ty};
use crate::error::{Failure, TyckError};
use crate::infer::{infer, infer_procedure, inferred, inferred_lambda, Context};
use crate::unify::{unification, unify};
use vstd::hash_map::StringHashMap;
use vstd::prelude::*;

verus! {

/// The declared type of each name: that of its last declaration.
pub open spec fn declarations(tops: Seq<Top>) -> Map<Seq<char>, Ty>
    decreases tops.len(),
{
    if tops.len() == 0 {
        Map::empty()
    } else {
        match tops.last() {
            Top::TypeDecl(_, name, ty) => declarations(tops.drop_last()).insert(name@, ty@),
            _ => declarations(tops.drop_last()),
        }
    }
}

/// The definitions among the items, in their order.
pub open spec fn definitions(tops: Seq<Top>) -> Seq<Top>
    decreases tops.len(),
{
    if tops.len() == 0 {
        Seq::empty()
    } else if tops.last() is TypeDecl {
        definitions(tops.drop_last())
    } else {
        definitions(tops.drop_last()).push(tops.last())
    }
}

/// The name that the item declares or defines.
pub open spec fn name_of(top: Top) -> Seq<char> {
    match top {
        Top::TypeDecl(_, name, _) => name@,
        Top::DefineProc(_, name, _, _) => name@,
        Top::DefineVar(_, name, _) => name@,
    }
}

/// Where the item stands in the source.
pub open spec fn site_of(top: Top) -> Range {
    match top {
        Top::TypeDecl(range, _, _) => range,
        Top::DefineProc(range, _, _, _) => range,
        Top::DefineVar(range, _, _) => range,
    }
}

/// The number of type variables that inference makes for the item.
pub open spec fn binders_in(top: Top) -> nat {
    match top {
        Top::TypeDecl(_, _, _) => 0,
        Top::DefineProc(_, _, params, body) => (params.len() + binders(body)) as nat,
        Top::DefineVar(_, _, value) => binders(value),
    }
}

/// The number of type variables that inference makes for the first `upto`
/// items.
pub open spec fn demand(tops: Seq<Top>, upto: nat) -> nat
    decreases upto,
{
    if upto == 0 {
        0
    } else {
        demand(tops, (upto - 1) as nat) + binders_in(tops[upto - 1])
    }
}

/// The type inferred for a definition: for a procedure, that of the lambda
/// made of its parameters and body; for a variable, that of its value.
pub open spec fn inferred_type(env: Map<Seq<char>, Ty>, def: Top, fresh: nat) -> Result<
    Ty,
    Failure,
> {
    match def {
        Top::DefineProc(_, _, params, body) => inferred_lambda(env, params@, body, fresh),
        Top::DefineVar(_, _, value) => inferred(env, value, fresh),
        Top::TypeDecl(range, name, _) => Err(Failure::IdentifierNotFound { name: name@, range }),
    }
}

/// What is wrong with one definition, if anything: its name has no declared
/// type, or a name in it has no binding, or its inferred type cannot be
/// unified with the declared one.
pub open spec fn verdict(env: Map<Seq<char>, Ty>, def: Top, fresh: nat) -> Option<Failure> {
    if def is TypeDecl {
        None
    } else if !env.contains_key(name_of(def)) {
        Some(Failure::IdentifierNotFound { name: name_of(def), range: site_of(def) })
    } else {
        match inferred_type(env, def, fresh) {
            Err(failure) => Some(failure),
            Ok(actual) => match unification(env[name_of(def)], actual, site_of(def)) {
                Err(failure) => Some(failure),
                Ok(_) => None,
            },
        }
    }
}

/// What is wrong with the first definition, from index `from` on, with which
/// something is wrong. The type variables of a definition start where those
/// of the definitions before it end.
pub open spec fn first_failure(env: Map<Seq<char>, Ty>, defs: Seq<Top>, from: nat) -> Option<
    Failure,
>
    decreases defs.len() - from,
{
    if from >= defs.len() {
        None
    } else {
        match verdict(env, defs[from as int], demand(defs, from)) {
            Some(failure) => Some(failure),
            None => first_failure(env, defs, from + 1),
        }
    }
}

impl File {
    /// The number of type variables that checking the whole module makes.
    pub open spec fn fresh_demand(self) -> nat {
        demand(definitions(self.top_list@), definitions(self.top_list@).len())
    }

    /// The diagnostic that checking the module gives, if any.
    pub open spec fn outcome(self) -> Option<Failure> {
        first_failure(declarations(self.top_list@), definitions(self.top_list@), 0)
    }
}

/// The items that the references point to.
pub open spec fn items(list: Seq<&Top>) -> Seq<Top> {
    Seq::new(list.len(), |i: int| *list[i])
}

/// The demand of a prefix is no more than that of a longer prefix.
pub proof fn lemma_demand_grows(tops: Seq<Top>, short: nat, long: nat)
    requires
        short <= long,
    ensures
        demand(tops, short) <= demand(tops, long),
    decreases long - short,
{
    if short < long {
        lemma_demand_grows(tops, short, (long - 1) as nat);
    }
}

/// Collects the declared types of the module's names, and the definitions
/// that are to be checked, in their order.
pub fn collect<'a>(mod_file: &'a File) -> (parts: (Context, Vec<&'a Top>))
    ensures
        parts.0@ == declarations(mod_file.top_list@),
        items(parts.1@) == definitions(mod_file.top_list@),
{
    let mut ctx = Context::new();
    let mut to_check_list: Vec<&Top> = Vec::new();
    let mut i: usize = 0;
    assert(mod_file.top_list@.take(0) =~= Seq::empty());
    assert(items(to_check_list@) =~= Seq::empty());
    while i < mod_file.top_list.len()
        invariant
            i <= mod_file.top_list.len(),
            ctx@ == declarations(mod_file.top_list@.take(i as int)),
            items(to_check_list@) == definitions(mod_file.top_list@.take(i as int)),
        decreases mod_file.top_list.len() - i,
    {
        let top = &mod_file.top_list[i];
        let ghost before = items(to_check_list@);
        proof {
            let longer = mod_file.top_list@.take(i + 1);
            assert(longer.drop_last() =~= mod_file.top_list@.take(i as int));
            assert(longer.last() == *top);
        }
        match top {
            Top::TypeDecl(_, name, ty) => {
                ctx.declare(name.clone(), ty.clone());
            },
            Top::DefineProc(_, _, _, _) => {
                to_check_list.push(top);
                assert(items(to_check_list@) =~= before.push(*top));
            },
            Top::DefineVar(_, _, _) => {
                to_check_list.push(top);
                assert(items(to_check_list@) =~= before.push(*top));
            },
        }
        i += 1;
    }
    assert(mod_file.top_list@.take(i as int) =~= mod_file.top_list@);
    (ctx, to_check_list)
}

/// Checks one definition: its name must have a declared type, and the type
/// inferred for it must unify with that type. `fresh` is the first type
/// variable not yet given out; on success the first one not given out
/// afterwards is returned.
pub fn check_definition(ctx: &Context, def: &Top, fresh: u64) -> (res: Result<u64, TyckError>)
    requires
        fresh + binders_in(*def) <= u64::MAX,
    ensures
        match res {
            Ok(next) => verdict(ctx@, *def, fresh as nat) is None && next == fresh + binders_in(*def),
            Err(e) => verdict(ctx@, *def, fresh as nat) == Some(e@),
        },
{
    match def {
        Top::TypeDecl(_, _, _) => Ok(fresh),
        Top::DefineProc(range, name, p_list, body) => {
            let expect_ty = match ctx.lookup(name) {
                Some(ty) => ty,
                None => {
                    return Err(TyckError::IdentifierNotFound { name: name.clone(), range: *range });
                },
            };
            let (actual_ty, next) = match infer_procedure(ctx, p_list, body, fresh) {
                Ok(found) => found,
                Err(e) => {
                    return Err(e);
                },
            };
            match unify(&expect_ty, &actual_ty, *range) {
                Ok(_) => Ok(next),
                Err(e) => Err(e),
            }
        },
        Top::DefineVar(range, name, expr) => {
            let expect_ty = match ctx.lookup(name) {
                Some(ty) => ty,
                None => {
                    return Err(TyckError::IdentifierNotFound { name: name.clone(), range: *range });
                },
            };
            let (actual_ty, next) = match infer(ctx, expr, fresh) {
                Ok(found) => found,
                Err(e) => {
                    return Err(e);
                },
            };
            match unify(&expect_ty, &actual_ty, *range) {
                Ok(_) => Ok(next),
                Err(e) => Err(e),
            }
        },
    }
}

/// Whether the item at index `at` declares a name that an earlier item has
/// declared already.
pub open spec fn redeclares(tops: Seq<Top>, at: int) -> bool {
    tops[at] is TypeDecl && exists|i: int|
        0 <= i < at && (#[trigger] tops[i]) is TypeDecl && name_of(tops[i]) == name_of(tops[at])
}

/// The index of the first declaration of a name that is declared already,
/// if there is one. The check itself lets the last declaration of a name
/// stand; this tells a caller that wants one declaration for each name where
/// the module has more.
pub fn first_redeclaration(mod_file: &File) -> (found: Option<usize>)
    ensures
        match found {
            Some(at) => at < mod_file.top_list.len() && redeclares(mod_file.top_list@, at as int)
                && forall|k: int| 0 <= k < at ==> !redeclares(mod_file.top_list@, k),
            None => forall|k: int|
                0 <= k < mod_file.top_list.len() ==> !redeclares(mod_file.top_list@, k),
        },
{
    let mut seen: StringHashMap<usize> = StringHashMap::new();
    let mut i: usize = 0;
    while i < mod_file.top_list.len()
        invariant
            i <= mod_file.top_list.len(),
            forall|k: int| 0 <= k < i ==> !redeclares(mod_file.top_list@, k),
            forall|name: Seq<char>| #[trigger]
                seen@.contains_key(name) ==> seen@[name] < i && mod_file.top_list[seen@[name] as int] is TypeDecl
                    && name_of(mod_file.top_list[seen@[name] as int]) == name,
            forall|k: int|
                0 <= k < i && (#[trigger] mod_file.top_list[k]) is TypeDecl ==> seen@.contains_key(
                    name_of(mod_file.top_list[k]),
                ),
        decreases mod_file.top_list.len() - i,
    {
        match &mod_file.top_list[i] {
            Top::TypeDecl(_, name, _) => {
                if seen.contains_key(name.as_str()) {
                    proof {
                        let earlier = seen@[name@] as int;
                        assert(mod_file.top_list[earlier] is TypeDecl);
                    }
                    return Some(i);
                }
                seen.insert(name.clone(), i);
            },
            _ => {},
        }
        i += 1;
    }
    None
}

/// The number of parameters that the lambdas of the expression bind, unless
/// it is too large for a type variable.
fn count_binders(e: &Expr) -> (count: Option<u64>)
    ensures
        match count {
            Some(n) => n == binders(*e),
            None => binders(*e) > u64::MAX,
        },
    decreases e,
{
    match e {
        Expr::Lambda(_, params, body) => match count_binders(body) {
            Some(inner) => (params.len() as u64).checked_add(inner),
            None => None,
        },
        _ => Some(0),
    }
}

/// Whether checking the module makes no more type variables than there are:
/// what `check_module` requires.
pub fn fresh_demand_fits(mod_file: &File) -> (fits: bool)
    ensures
        fits == (mod_file.fresh_demand() <= u64::MAX),
{
    let (_, to_check_list) = collect(mod_file);
    let ghost defs = definitions(mod_file.top_list@);
    let mut total: u64 = 0;
    let mut i: usize = 0;
    while i < to_check_list.len()
        invariant
            i <= to_check_list.len(),
            defs == items(to_check_list@),
            defs == definitions(mod_file.top_list@),
            total == demand(defs, i as nat),
        decreases to_check_list.len() - i,
    {
        proof {
            lemma_demand_grows(defs, (i + 1) as nat, defs.len());
            assert(defs[i as int] == *to_check_list[i as int]);
        }
        let own = match to_check_list[i] {
            Top::TypeDecl(_, _, _) => Some(0),
            Top::DefineProc(_, _, params, body) => match count_binders(body) {
                Some(inner) => (params.len() as u64).checked_add(inner),
                None => None,
            },
            Top::DefineVar(_, _, value) => count_binders(value),
        };
        let next = match own {
            Some(n) => total.checked_add(n),
            None => None,
        };
        match next {
            Some(n) => {
                total = n;
            },
            None => {
                return false;
            },
        }
        i += 1;
    }
    true
}

/// Checks the module: every definition must have a declared type with which
/// the type inferred for it unifies. The first definition, in source order,
/// that fails gives the diagnostic.
///
/// The declarations are collected before any definition is checked, so a
/// declaration may stand after the definition that it is for. Type variables
/// are numbered from 0 through the whole module. Each definition is unified
/// on its own: a type variable written in a declaration may stand for one
/// type in one definition and for another in the next, and a definition
/// whose types unify is accepted even where some type variable stays
/// without a binding.
pub fn check_module(mod_file: &File) -> (res: Result<(), TyckError>)
    requires
        mod_file.fresh_demand() <= u64::MAX,
    ensures
        match res {
            Ok(_) => mod_file.outcome() is None,
            Err(e) => mod_file.outcome() == Some(e@),
        },
{
    let (ctx, to_check_list) = collect(mod_file);
    let ghost defs = definitions(mod_file.top_list@);
    let mut fresh: u64 = 0;
    let mut i: usize = 0;
    while i < to_check_list.len()
        invariant
            i <= to_check_list.len(),
            defs == items(to_check_list@),
            defs == definitions(mod_file.top_list@),
            ctx@ == declarations(mod_file.top_list@),
            fresh == demand(defs, i as nat),
            demand(defs, defs.len()) <= u64::MAX,
            first_failure(ctx@, defs, i as nat) == mod_file.outcome(),
        decreases to_check_list.len() - i,
    {
        proof {
            lemma_demand_grows(defs, (i + 1) as nat, defs.len());
            assert(defs[i as int] == *to_check_list[i as int]);
        }
        match check_definition(&ctx, to_check_list[i], fresh) {
            Ok(next) => {
                fresh = next;
            },
            Err(e) => {
                return Err(e);
            },
        }
        i += 1;
    }
    Ok(())
}

} // verus!
