//! What the checker guarantees about whole modules.

use crate::ast::{Expr, File, Range, Top, Ty};
use crate::check::{
    declarations, definitions, demand, first_failure, inferred_type, name_of, site_of, verdict,
};
use crate::error::Failure;
use crate::infer::{extend, inferred, inferred_lambda, lemma_extend_miss, parameter_bindings};
use crate::mgu::{lemma_unification, unifiable};
use crate::unify::solve;
use vstd::prelude::*;

verus! {

/// Whether every definition before index `upto` passes its check.
pub open spec fn all_pass(env: Map<Seq<char>, Ty>, defs: Seq<Top>, upto: int) -> bool {
    forall|j: int| 0 <= j < upto ==> verdict(env, #[trigger] defs[j], demand(defs, j as nat)) is None
}

/// The identifier that the expression refers to, under its lambdas, and
/// where it stands.
pub open spec fn referenced(e: Expr) -> Option<(Seq<char>, Range)>
    decreases e,
{
    match e {
        Expr::Id(range, name) => Some((name@, range)),
        Expr::Int(_, _) => None,
        Expr::Lambda(_, _, body) => referenced(*body),
    }
}

/// Whether the name is among the parameters.
pub open spec fn among(params: Seq<String>, name: Seq<char>) -> bool {
    exists|i: int| 0 <= i < params.len() && (#[trigger] params[i])@ == name
}

/// Whether a lambda of the expression binds the name.
pub open spec fn binds(e: Expr, name: Seq<char>) -> bool
    decreases e,
{
    match e {
        Expr::Lambda(_, params, body) => among(params@, name) || binds(*body, name),
        _ => false,
    }
}

/// Whether the definition refers, at `range`, to `name`, and nothing binds
/// the name there: no declaration, and no parameter around the reference.
pub open spec fn refers_unbound(
    env: Map<Seq<char>, Ty>,
    def: Top,
    name: Seq<char>,
    range: Range,
) -> bool {
    !env.contains_key(name) && match def {
        Top::DefineProc(_, _, params, body) => referenced(body) == Some((name, range)) && !among(
            params@,
            name,
        ) && !binds(body, name),
        Top::DefineVar(_, _, value) => referenced(value) == Some((name, range)) && !binds(
            value,
            name,
        ),
        Top::TypeDecl(_, _, _) => false,
    }
}

/// The number of parameters of the procedure or lambda that the definition
/// defines, if it defines one.
pub open spec fn parameter_count(def: Top) -> Option<nat> {
    match def {
        Top::DefineProc(_, _, params, _) => Some(params.len() as nat),
        Top::DefineVar(_, _, Expr::Lambda(_, params, _)) => Some(params.len() as nat),
        _ => None,
    }
}

/// The declarations among the items, in their order.
pub open spec fn type_decls(tops: Seq<Top>) -> Seq<Top>
    decreases tops.len(),
{
    if tops.len() == 0 {
        Seq::empty()
    } else if tops.last() is TypeDecl {
        type_decls(tops.drop_last()).push(tops.last())
    } else {
        type_decls(tops.drop_last())
    }
}

/// Where the definitions before `upto` pass, the first failure is the first
/// one from `upto` on.
pub proof fn lemma_skip_passing(env: Map<Seq<char>, Ty>, defs: Seq<Top>, from: nat, upto: nat)
    requires
        from <= upto <= defs.len(),
        all_pass(env, defs, upto as int),
    ensures
        first_failure(env, defs, from) == first_failure(env, defs, upto),
    decreases upto - from,
{
    if from < upto {
        assert(verdict(env, defs[from as int], demand(defs, from)) is None);
        lemma_skip_passing(env, defs, from + 1, upto);
    }
}

/// Where a definition fails, some definition at or after `from`, and at or
/// before it, gives the first failure.
pub proof fn lemma_some_failure(env: Map<Seq<char>, Ty>, defs: Seq<Top>, from: nat, at: nat)
    requires
        from <= at < defs.len(),
        verdict(env, defs[at as int], demand(defs, at)) is Some,
    ensures
        first_failure(env, defs, from) is Some,
    decreases at - from,
{
    if from < at {
        lemma_some_failure(env, defs, from + 1, at);
    }
}

/// An expression that refers to a name that nothing binds has no type: the
/// diagnostic names the identifier, at the place of the reference.
pub proof fn lemma_unbound_reference(
    env: Map<Seq<char>, Ty>,
    e: Expr,
    fresh: nat,
    name: Seq<char>,
    range: Range,
)
    requires
        !env.contains_key(name),
        referenced(e) == Some((name, range)),
        !binds(e, name),
    ensures
        inferred(env, e, fresh) == Err::<Ty, _>(Failure::IdentifierNotFound { name, range }),
    decreases e, 0nat,
{
    match e {
        Expr::Lambda(_, params, body) => {
            lemma_unbound_parameters(env, params@, *body, fresh, name, range);
        },
        _ => {},
    }
}

/// The same for a lambda, given by its parameters and body.
pub proof fn lemma_unbound_parameters(
    env: Map<Seq<char>, Ty>,
    params: Seq<String>,
    body: Expr,
    fresh: nat,
    name: Seq<char>,
    range: Range,
)
    requires
        !env.contains_key(name),
        referenced(body) == Some((name, range)),
        !among(params, name),
        !binds(body, name),
    ensures
        inferred_lambda(env, params, body, fresh) == Err::<Ty, _>(
            Failure::IdentifierNotFound { name, range },
        ),
    decreases body, 1nat,
{
    let locals = parameter_bindings(params, fresh);
    assert forall|j: int| 0 <= j < locals.len() implies (#[trigger] locals[j]).0 != name by {
        assert(params[j]@ != name);
    }
    lemma_extend_miss(env, locals, name);
    lemma_unbound_reference(extend(env, locals), body, fresh + params.len(), name, range);
}

/// The declared types depend on the declarations alone.
pub proof fn lemma_declarations(tops: Seq<Top>)
    ensures
        declarations(tops) == declarations(type_decls(tops)),
    decreases tops.len(),
{
    if tops.len() > 0 {
        lemma_declarations(tops.drop_last());
        if tops.last() is TypeDecl {
            let decls = type_decls(tops);
            assert(decls.drop_last() =~= type_decls(tops.drop_last()));
            assert(decls.last() == tops.last());
        }
    }
}

/// A module passes the check if each of its definitions has a declared type
/// and an inferred type, and the two can be unified.
pub proof fn lemma_compatible_module_passes(file: File)
    requires
        forall|i: int|
            0 <= i < definitions(file.top_list@).len() ==> {
                let env = declarations(file.top_list@);
                let def = #[trigger] definitions(file.top_list@)[i];
                &&& env.contains_key(name_of(def))
                &&& inferred_type(env, def, demand(definitions(file.top_list@), i as nat)) is Ok
                &&& unifiable(
                    env[name_of(def)],
                    inferred_type(env, def, demand(definitions(file.top_list@), i as nat))->Ok_0,
                )
            },
    ensures
        file.outcome() is None,
{
    let env = declarations(file.top_list@);
    let defs = definitions(file.top_list@);
    assert forall|j: int| 0 <= j < defs.len() implies verdict(
        env,
        #[trigger] defs[j],
        demand(defs, j as nat),
    ) is None by {
        let def = defs[j];
        let actual = inferred_type(env, def, demand(defs, j as nat))->Ok_0;
        lemma_unification(env[name_of(def)], actual, site_of(def));
    }
    lemma_skip_passing(env, defs, 0, defs.len());
}

/// A module fails the check if one of its definitions refers to an
/// identifier that nothing binds. Where the definitions before that one pass
/// and its own name has a declared type, the diagnostic names the identifier
/// at the place of the reference.
pub proof fn lemma_unbound_identifier_fails(file: File, at: int, name: Seq<char>, range: Range)
    requires
        0 <= at < definitions(file.top_list@).len(),
        refers_unbound(declarations(file.top_list@), definitions(file.top_list@)[at], name, range),
    ensures
        file.outcome() is Some,
        all_pass(declarations(file.top_list@), definitions(file.top_list@), at)
            && declarations(file.top_list@).contains_key(
            name_of(definitions(file.top_list@)[at]),
        ) ==> file.outcome() == Some(Failure::IdentifierNotFound { name, range }),
{
    let env = declarations(file.top_list@);
    let defs = definitions(file.top_list@);
    let fresh = demand(defs, at as nat);
    match defs[at] {
        Top::DefineProc(_, _, params, body) => {
            lemma_unbound_parameters(env, params@, body, fresh, name, range);
        },
        Top::DefineVar(_, _, value) => {
            lemma_unbound_reference(env, value, fresh, name, range);
        },
        Top::TypeDecl(_, _, _) => {},
    }
    lemma_some_failure(env, defs, 0, at as nat);
    if all_pass(env, defs, at) {
        lemma_skip_passing(env, defs, 0, at as nat);
    }
}

/// A module fails the check if one of its definitions defines a procedure or
/// a lambda, has an inferred type, and is declared with an arrow type of
/// another number of parameters. Where the definitions before that one pass,
/// the diagnostic is a type mismatch that reports the two numbers.
pub proof fn lemma_arity_difference_fails(file: File, at: int)
    requires
        0 <= at < definitions(file.top_list@).len(),
        declarations(file.top_list@).contains_key(name_of(definitions(file.top_list@)[at])),
        declarations(file.top_list@)[name_of(definitions(file.top_list@)[at])] is Arrow,
        inferred_type(
            declarations(file.top_list@),
            definitions(file.top_list@)[at],
            demand(definitions(file.top_list@), at as nat),
        ) is Ok,
        parameter_count(definitions(file.top_list@)[at]) is Some,
        parameter_count(definitions(file.top_list@)[at])->Some_0 != declarations(
            file.top_list@,
        )[name_of(definitions(file.top_list@)[at])]->Arrow_0.len(),
    ensures
        file.outcome() is Some,
        all_pass(declarations(file.top_list@), definitions(file.top_list@), at) ==> file.outcome()
            == Some(
            Failure::TypeMismatch {
                expected: declarations(file.top_list@)[name_of(definitions(file.top_list@)[at])],
                actual: inferred_type(
                    declarations(file.top_list@),
                    definitions(file.top_list@)[at],
                    demand(definitions(file.top_list@), at as nat),
                )->Ok_0,
                range: site_of(definitions(file.top_list@)[at]),
                arity: Some(
                    (
                        declarations(file.top_list@)[name_of(
                            definitions(file.top_list@)[at],
                        )]->Arrow_0.len(),
                        parameter_count(definitions(file.top_list@)[at])->Some_0,
                    ),
                ),
            },
        ),
{
    let env = declarations(file.top_list@);
    let defs = definitions(file.top_list@);
    let def = defs[at];
    let fresh = demand(defs, at as nat);
    let expected = env[name_of(def)];
    let actual = inferred_type(env, def, fresh)->Ok_0;
    assert(actual is Arrow && actual->Arrow_0.len() == parameter_count(def)->Some_0);
    let work = seq![(expected, actual)];
    assert(work.last() == (expected, actual));
    assert(solve(work) is Err);
    lemma_some_failure(env, defs, 0, at as nat);
    if all_pass(env, defs, at) {
        lemma_skip_passing(env, defs, 0, at as nat);
    }
}

/// Two modules with the same declarations, in the same order, and the same
/// definitions, in the same order, have the same outcome, however the
/// declarations are placed among the definitions.
pub proof fn lemma_order_independence(first: File, second: File)
    requires
        type_decls(first.top_list@) == type_decls(second.top_list@),
        definitions(first.top_list@) == definitions(second.top_list@),
    ensures
        first.outcome() == second.outcome(),
{
    lemma_declarations(first.top_list@);
    lemma_declarations(second.top_list@);
}

} // verus!
