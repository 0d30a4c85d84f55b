//! What the unifier's answer means: the bindings it finds unify the two
//! types, it finds bindings whenever the types can be unified at all, and
//! every unifier is an instance of what it finds.

use crate::ast::{Range, Ty};
use crate::subst::{
    apply, as_function, lemma_apply_substitute, lemma_as_function, lemma_occurs_size,
    lemma_resolve_arrow, lemma_substitute_absent, resolve, resolve_each, substitute,
};
use crate::unify::{lemma_progress, live, replace_all, solve, step, total, unification, Step};
use vstd::prelude::*;

verus! {

/// Whether the substitution makes the two sides of every goal equal.
pub open spec fn unifies(sigma: spec_fn(u64) -> Ty, work: Seq<(Ty, Ty)>) -> bool {
    forall|i: int| 0 <= i < work.len() ==> apply(sigma, (#[trigger] work[i]).0) == apply(sigma, work[i].1)
}

/// Whether some substitution makes the two types equal.
pub open spec fn unifiable(a: Ty, b: Ty) -> bool {
    exists|sigma: spec_fn(u64) -> Ty| #[trigger] apply(sigma, a) == apply(sigma, b)
}

/// Bindings that `solve` finds make the two sides of every goal equal.
pub proof fn lemma_solve_sound(work: Seq<(Ty, Ty)>)
    requires
        solve(work) is Ok,
    ensures
        forall|i: int|
            0 <= i < work.len() ==> resolve(solve(work)->Ok_0, (#[trigger] work[i]).0) == resolve(
                solve(work)->Ok_0,
                work[i].1,
            ),
    decreases live(work), total(work),
{
    if work.len() > 0 {
        lemma_progress(work);
        let rest = work.drop_last();
        let a = work.last().0;
        let b = work.last().1;
        let found = solve(work)->Ok_0;
        match step(a, b) {
            Step::Skip => {
                lemma_solve_sound(rest);
                assert forall|i: int| 0 <= i < work.len() implies resolve(
                    found,
                    (#[trigger] work[i]).0,
                ) == resolve(found, work[i].1) by {
                    if i < rest.len() {
                        assert(work[i] == rest[i]);
                    }
                }
            },
            Step::Bind(x, t) => {
                let next = replace_all(x, t, rest);
                let then = solve(next)->Ok_0;
                lemma_solve_sound(next);
                assert(found.drop_first() =~= then);
                assert(found[0] == (x, t));
                lemma_substitute_absent(x, t, t);
                assert forall|i: int| 0 <= i < work.len() implies resolve(
                    found,
                    (#[trigger] work[i]).0,
                ) == resolve(found, work[i].1) by {
                    if i < rest.len() {
                        assert(next[i].0 == substitute(x, t, work[i].0));
                        assert(next[i].1 == substitute(x, t, work[i].1));
                    }
                }
            },
            Step::Split(parts) => {
                let next = rest + parts;
                lemma_solve_sound(next);
                let ps = a->Arrow_0;
                let qs = b->Arrow_0;
                let r = *a->Arrow_1;
                let s = *b->Arrow_1;
                lemma_resolve_arrow(found, ps, r);
                lemma_resolve_arrow(found, qs, s);
                assert(next[rest.len() as int] == (r, s));
                assert forall|k: int| 0 <= k < ps.len() implies resolve(found, ps[k]) == resolve(
                    found,
                    qs[k],
                ) by {
                    assert(next[rest.len() + ps.len() - k] == (ps[k], qs[k]));
                }
                assert(resolve_each(found, ps) =~= resolve_each(found, qs));
                assert forall|i: int| 0 <= i < work.len() implies resolve(
                    found,
                    (#[trigger] work[i]).0,
                ) == resolve(found, work[i].1) by {
                    if i < rest.len() {
                        assert(work[i] == next[i]);
                    }
                }
            },
            Step::Fail(_) => {},
        }
    }
}

/// Where some substitution unifies the goals, `solve` finds bindings, and the
/// substitution is an instance of them.
pub proof fn lemma_solve_complete(sigma: spec_fn(u64) -> Ty, work: Seq<(Ty, Ty)>)
    requires
        unifies(sigma, work),
    ensures
        solve(work) is Ok,
        forall|u: Ty| apply(sigma, #[trigger] resolve(solve(work)->Ok_0, u)) == apply(sigma, u),
    decreases live(work), total(work),
{
    if work.len() > 0 {
        lemma_progress(work);
        let rest = work.drop_last();
        let a = work.last().0;
        let b = work.last().1;
        assert(apply(sigma, work[work.len() - 1].0) == apply(sigma, work[work.len() - 1].1));
        match step(a, b) {
            Step::Skip => {
                assert forall|i: int| 0 <= i < rest.len() implies apply(
                    sigma,
                    (#[trigger] rest[i]).0,
                ) == apply(sigma, rest[i].1) by {
                    assert(rest[i] == work[i]);
                }
                lemma_solve_complete(sigma, rest);
            },
            Step::Bind(x, t) => {
                let next = replace_all(x, t, rest);
                assert(sigma(x) == apply(sigma, t));
                assert forall|i: int| 0 <= i < next.len() implies apply(
                    sigma,
                    (#[trigger] next[i]).0,
                ) == apply(sigma, next[i].1) by {
                    assert(rest[i] == work[i]);
                    lemma_apply_substitute(sigma, x, t, work[i].0);
                    lemma_apply_substitute(sigma, x, t, work[i].1);
                }
                lemma_solve_complete(sigma, next);
                let then = solve(next)->Ok_0;
                let found = solve(work)->Ok_0;
                assert(found.drop_first() =~= then);
                assert(found[0] == (x, t));
                assert forall|u: Ty| apply(sigma, #[trigger] resolve(found, u)) == apply(
                    sigma,
                    u,
                ) by {
                    lemma_apply_substitute(sigma, x, t, u);
                    assert(resolve(found, u) == resolve(then, substitute(x, t, u)));
                }
            },
            Step::Split(parts) => {
                let next = rest + parts;
                let ps = a->Arrow_0;
                let qs = b->Arrow_0;
                let left = apply(sigma, a);
                let right = apply(sigma, b);
                assert forall|i: int| 0 <= i < next.len() implies apply(
                    sigma,
                    (#[trigger] next[i]).0,
                ) == apply(sigma, next[i].1) by {
                    if i < rest.len() {
                        assert(next[i] == work[i]);
                    } else if i > rest.len() {
                        let k = ps.len() - (i - rest.len());
                        assert(next[i] == (ps[k], qs[k]));
                        assert(left->Arrow_0[k] == apply(sigma, ps[k]));
                        assert(right->Arrow_0[k] == apply(sigma, qs[k]));
                    }
                }
                lemma_solve_complete(sigma, next);
            },
            Step::Fail(_) => {
                if a is Free {
                    lemma_occurs_size(sigma, a->Free_0, b);
                } else if b is Free {
                    lemma_occurs_size(sigma, b->Free_0, a);
                } else if a is Arrow && b is Arrow {
                    assert(apply(sigma, a)->Arrow_0.len() == a->Arrow_0.len());
                    assert(apply(sigma, b)->Arrow_0.len() == b->Arrow_0.len());
                }
            },
        }
    } else {
        assert forall|u: Ty| apply(sigma, #[trigger] resolve(solve(work)->Ok_0, u)) == apply(
            sigma,
            u,
        ) by {}
    }
}

/// Unification succeeds exactly where the two types are unifiable; the
/// bindings it gives unify them, and every unifier is an instance of the
/// bindings.
pub proof fn lemma_unification(expected: Ty, actual: Ty, range: Range)
    ensures
        unification(expected, actual, range) is Ok <==> unifiable(expected, actual),
        unification(expected, actual, range) matches Ok(bindings) ==> {
            &&& resolve(bindings, expected) == resolve(bindings, actual)
            &&& forall|sigma: spec_fn(u64) -> Ty, u: Ty|
                apply(sigma, expected) == apply(sigma, actual) ==> apply(
                    sigma,
                    #[trigger] resolve(bindings, u),
                ) == #[trigger] apply(sigma, u)
        },
{
    let work = seq![(expected, actual)];
    if solve(work) is Ok {
        let found = solve(work)->Ok_0;
        lemma_solve_sound(work);
        assert(work[0] == (expected, actual));
        lemma_as_function(found, expected);
        lemma_as_function(found, actual);
        assert(apply(as_function(found), expected) == apply(as_function(found), actual));
        assert forall|sigma: spec_fn(u64) -> Ty, u: Ty|
            apply(sigma, expected) == apply(sigma, actual) implies apply(
            sigma,
            #[trigger] resolve(found, u),
        ) == #[trigger] apply(sigma, u) by {
            lemma_solve_complete(sigma, work);
        }
    }
    if unifiable(expected, actual) {
        let sigma = choose|sigma: spec_fn(u64) -> Ty|
            #[trigger] apply(sigma, expected) == apply(sigma, actual);
        lemma_solve_complete(sigma, work);
    }
}

} // verus!
