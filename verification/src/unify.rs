//! Unification of types: the goals still to be solved are kept on a stack,
//! and every binding that is found is applied to the goals that remain.

use crate::ast::{lemma_arrow_view, views, Range, Ty, Type};
use crate::error::{Failure, TyckError};
use crate::mgu::{lemma_unification, unifiable};
use crate::subst::{
    binding_views, lemma_occurs_arrow, occurs, occurs_in, replace, resolve, substitute,
    Substitution,
};
use vstd::prelude::*;

verus! {

/// Why two types cannot be unified.
pub enum Conflict {
    /// The two types differ in kind, or are base types with different names.
    Mismatch,
    /// Two arrows have different numbers of parameters: that of the expected
    /// arrow, then that of the actual one.
    Arity(nat, nat),
    /// The variable would have to stand for the type, in which it occurs. The
    /// type is the one that the variable met, with the bindings found before
    /// in place.
    Occurs(u64, Ty),
}

/// What one goal asks for.
pub enum Step {
    /// The goal holds as it stands.
    Skip,
    /// The variable has to be bound to the type.
    Bind(u64, Ty),
    /// The goal holds exactly if these goals hold.
    Split(Seq<(Ty, Ty)>),
    /// The goal cannot hold.
    Fail(Conflict),
}

/// The goals that two arrows with equally many parameters give rise to: the
/// return types come first in the sequence and the first parameters last, so
/// that a stack yields the parameters from the left and then the return types.
pub open spec fn split_goals(params_a: Seq<Ty>, ret_a: Ty, params_b: Seq<Ty>, ret_b: Ty) -> Seq<
    (Ty, Ty),
> {
    Seq::new(
        params_a.len() + 1,
        |i: int|
            if i == 0 {
                (ret_a, ret_b)
            } else {
                (params_a[params_a.len() - i], params_b[params_a.len() - i])
            },
    )
}

/// What the goal of unifying `a`, the expected type, with `b`, the actual
/// one, asks for.
pub open spec fn step(a: Ty, b: Ty) -> Step {
    match (a, b) {
        (Ty::Free(x), Ty::Free(y)) => if x == y {
            Step::Skip
        } else {
            Step::Bind(x, b)
        },
        (Ty::Free(x), _) => if occurs(x, b) {
            Step::Fail(Conflict::Occurs(x, b))
        } else {
            Step::Bind(x, b)
        },
        (_, Ty::Free(y)) => if occurs(y, a) {
            Step::Fail(Conflict::Occurs(y, a))
        } else {
            Step::Bind(y, a)
        },
        (Ty::Base(n), Ty::Base(m)) => if n == m {
            Step::Skip
        } else {
            Step::Fail(Conflict::Mismatch)
        },
        (Ty::Arrow(ps, r), Ty::Arrow(qs, s)) => if ps.len() == qs.len() {
            Step::Split(split_goals(ps, *r, qs, *s))
        } else {
            Step::Fail(Conflict::Arity(ps.len(), qs.len()))
        },
        _ => Step::Fail(Conflict::Mismatch),
    }
}

/// The goals with `t` in place of `x` on both sides of each.
pub open spec fn replace_all(x: u64, t: Ty, work: Seq<(Ty, Ty)>) -> Seq<(Ty, Ty)> {
    Seq::new(work.len(), |i: int| (substitute(x, t, work[i].0), substitute(x, t, work[i].1)))
}

/// The bindings `first`, then those that `then` found, if it found any.
pub open spec fn prepend(first: Seq<(u64, Ty)>, then: Result<Seq<(u64, Ty)>, Conflict>) -> Result<
    Seq<(u64, Ty)>,
    Conflict,
> {
    match then {
        Ok(bindings) => Ok(first + bindings),
        Err(conflict) => Err(conflict),
    }
}

/// Whether `x` occurs on one side of the goal.
pub open spec fn goal_mentions(x: u64, goal: (Ty, Ty)) -> bool {
    occurs(x, goal.0) || occurs(x, goal.1)
}

/// Whether `v` is a variable that occurs in one of the goals.
pub open spec fn mentions(v: int, work: Seq<(Ty, Ty)>) -> bool {
    0 <= v <= u64::MAX && exists|i: int|
        0 <= i < work.len() && goal_mentions(v as u64, #[trigger] work[i])
}

/// How many of the numbers below `n` satisfy `p`.
pub open spec fn count(p: spec_fn(int) -> bool, n: nat) -> nat
    decreases n,
{
    if n == 0 {
        0
    } else {
        count(p, (n - 1) as nat) + if p(n - 1) {
            1nat
        } else {
            0nat
        }
    }
}

/// How many variables occur in the goals.
pub open spec fn live(work: Seq<(Ty, Ty)>) -> nat {
    count(|v: int| mentions(v, work), 0x1_0000_0000_0000_0000)
}

/// The sum of the numbers.
pub open spec fn sum(numbers: Seq<nat>) -> nat
    decreases numbers.len(),
{
    if numbers.len() == 0 {
        0
    } else {
        sum(numbers.drop_last()) + numbers.last()
    }
}

/// One more than the weight of the goals that the goal can be split into.
pub open spec fn weight(a: Ty, b: Ty) -> nat
    decreases a, 0nat,
{
    match (a, b) {
        (Ty::Arrow(ps, r), Ty::Arrow(qs, s)) => if ps.len() == qs.len() {
            1 + weight(*r, *s) + weight_from(ps, qs, 0)
        } else {
            1
        },
        _ => 1,
    }
}

/// The weight of the goals that pair the parameters from index `from` on.
pub open spec fn weight_from(ps: Seq<Ty>, qs: Seq<Ty>, from: nat) -> nat
    decreases ps, ps.len() - from,
{
    if from < ps.len() {
        weight(ps[from as int], qs[from as int]) + weight_from(ps, qs, from + 1)
    } else {
        0
    }
}

/// The weight of each goal.
pub open spec fn weights(work: Seq<(Ty, Ty)>) -> Seq<nat> {
    Seq::new(work.len(), |i: int| weight(work[i].0, work[i].1))
}

/// The weight of all the goals together.
pub open spec fn total(work: Seq<(Ty, Ty)>) -> nat {
    sum(weights(work))
}

/// The sum of two sequences in a row is the sum of their sums.
pub proof fn lemma_sum_concat(a: Seq<nat>, b: Seq<nat>)
    ensures
        sum(a + b) == sum(a) + sum(b),
    decreases b.len(),
{
    if b.len() == 0 {
        assert(a + b =~= a);
    } else {
        assert((a + b).drop_last() =~= a + b.drop_last());
        lemma_sum_concat(a, b.drop_last());
    }
}

/// Where `q` holds wherever `p` does, `p` holds of no more numbers.
pub proof fn lemma_count_le(p: spec_fn(int) -> bool, q: spec_fn(int) -> bool, n: nat)
    requires
        forall|v: int| 0 <= v < n && #[trigger] p(v) ==> q(v),
    ensures
        count(p, n) <= count(q, n),
    decreases n,
{
    if n > 0 {
        lemma_count_le(p, q, (n - 1) as nat);
    }
}

/// Where `q` holds wherever `p` does, and of `x` too, `p` holds of fewer
/// numbers.
pub proof fn lemma_count_lt(p: spec_fn(int) -> bool, q: spec_fn(int) -> bool, n: nat, x: int)
    requires
        forall|v: int| 0 <= v < n && #[trigger] p(v) ==> q(v),
        0 <= x < n,
        q(x),
        !p(x),
    ensures
        count(p, n) < count(q, n),
    decreases n,
{
    if x == n - 1 {
        lemma_count_le(p, q, (n - 1) as nat);
    } else {
        lemma_count_lt(p, q, (n - 1) as nat, x);
    }
}

/// Once `t`, in which `x` does not occur, stands in place of `x`, `x` occurs
/// no more.
pub proof fn lemma_substitute_removes(x: u64, t: Ty, u: Ty)
    requires
        !occurs(x, t),
    ensures
        !occurs(x, substitute(x, t, u)),
    decreases u,
{
    match u {
        Ty::Arrow(ps, r) => {
            let out = substitute(x, t, u);
            lemma_substitute_removes(x, t, *r);
            assert forall|i: int| 0 <= i < ps.len() implies !occurs(x, #[trigger] out->Arrow_0[i]) by {
                lemma_substitute_removes(x, t, ps[i]);
            }
            lemma_occurs_arrow(x, out->Arrow_0, out->Arrow_1);
        },
        _ => {},
    }
}

/// A variable that occurs after a substitution occurred before it, or occurs
/// in the type that was put in.
pub proof fn lemma_substitute_vars(v: u64, x: u64, t: Ty, u: Ty)
    requires
        occurs(v, substitute(x, t, u)),
    ensures
        occurs(v, u) || occurs(v, t),
    decreases u,
{
    match u {
        Ty::Arrow(ps, r) => {
            let out = substitute(x, t, u);
            lemma_occurs_arrow(v, out->Arrow_0, out->Arrow_1);
            lemma_occurs_arrow(v, ps, r);
            if occurs(v, *out->Arrow_1) {
                lemma_substitute_vars(v, x, t, *r);
            } else {
                let i = choose|i: int|
                    0 <= i < out->Arrow_0.len() && occurs(v, #[trigger] out->Arrow_0[i]);
                lemma_substitute_vars(v, x, t, ps[i]);
            }
        },
        _ => {},
    }
}

/// The weight of the first goals that two arrows split into, down to the
/// pair of the parameters at index `from`.
pub proof fn lemma_weight_from(ps: Seq<Ty>, r: Ty, qs: Seq<Ty>, s: Ty, from: nat)
    requires
        ps.len() == qs.len(),
        from <= ps.len(),
    ensures
        total(split_goals(ps, r, qs, s).subrange(0, ps.len() + 1 - from)) == weight(r, s)
            + weight_from(ps, qs, from),
    decreases ps.len() - from,
{
    let goals = split_goals(ps, r, qs, s);
    let head = goals.subrange(0, ps.len() + 1 - from);
    assert(total(head) == sum(weights(head).drop_last()) + weights(head).last());
    if from == ps.len() {
        assert(weights(head).drop_last() =~= Seq::<nat>::empty());
        assert(sum(Seq::<nat>::empty()) == 0);
        assert(weights(head).last() == weight(r, s));
    } else {
        lemma_weight_from(ps, r, qs, s, from + 1);
        let shorter = goals.subrange(0, ps.len() + 1 - (from + 1));
        assert(weights(head).drop_last() =~= weights(shorter));
        assert(head.last() == (ps[from as int], qs[from as int]));
        assert(weights(head).last() == weight(ps[from as int], qs[from as int]));
    }
}

/// The weight of an arrow goal is one more than that of its parts.
pub proof fn lemma_weight_split(ps: Seq<Ty>, r: Ty, qs: Seq<Ty>, s: Ty)
    requires
        ps.len() == qs.len(),
    ensures
        weight(Ty::Arrow(ps, Box::new(r)), Ty::Arrow(qs, Box::new(s))) == 1 + total(
            split_goals(ps, r, qs, s),
        ),
{
    let goals = split_goals(ps, r, qs, s);
    lemma_weight_from(ps, r, qs, s, 0);
    assert(goals.subrange(0, ps.len() + 1 - 0) =~= goals);
}

/// Every step that does not fail leaves fewer variables in the goals, or as
/// many variables and less weight.
pub proof fn lemma_progress(work: Seq<(Ty, Ty)>)
    requires
        work.len() > 0,
    ensures
        match step(work.last().0, work.last().1) {
            Step::Skip => live(work.drop_last()) <= live(work) && total(work.drop_last()) < total(
                work,
            ),
            Step::Bind(x, t) => live(replace_all(x, t, work.drop_last())) < live(work),
            Step::Split(goals) => live(work.drop_last() + goals) <= live(work) && total(
                work.drop_last() + goals,
            ) < total(work),
            Step::Fail(_) => true,
        },
{
    let rest = work.drop_last();
    let a = work.last().0;
    let b = work.last().1;
    let limit: nat = 0x1_0000_0000_0000_0000;
    let q = |v: int| mentions(v, work);
    assert(weights(work).drop_last() =~= weights(rest));
    assert(weights(work).last() == weight(a, b));
    match step(a, b) {
        Step::Skip => {
            let p = |v: int| mentions(v, rest);
            assert forall|v: int| 0 <= v < limit && #[trigger] p(v) implies q(v) by {
                let i = choose|i: int|
                    0 <= i < rest.len() && goal_mentions(v as u64, #[trigger] rest[i]);
                assert(goal_mentions(v as u64, work[i]));
            }
            lemma_count_le(p, q, limit);
        },
        Step::Bind(x, t) => {
            let next = replace_all(x, t, rest);
            let p = |v: int| mentions(v, next);
            assert(goal_mentions(x, work[work.len() - 1]));
            assert(q(x as int));
            assert(!p(x as int)) by {
                assert forall|i: int| 0 <= i < next.len() implies !goal_mentions(
                    x,
                    #[trigger] next[i],
                ) by {
                    lemma_substitute_removes(x, t, rest[i].0);
                    lemma_substitute_removes(x, t, rest[i].1);
                }
            }
            assert forall|v: int| 0 <= v < limit && #[trigger] p(v) implies q(v) by {
                let i = choose|i: int|
                    0 <= i < next.len() && goal_mentions(v as u64, #[trigger] next[i]);
                if occurs(v as u64, next[i].0) {
                    lemma_substitute_vars(v as u64, x, t, rest[i].0);
                } else {
                    lemma_substitute_vars(v as u64, x, t, rest[i].1);
                }
                if goal_mentions(v as u64, rest[i]) {
                    assert(goal_mentions(v as u64, work[i]));
                } else {
                    assert(goal_mentions(v as u64, work[work.len() - 1]));
                }
            }
            lemma_count_lt(p, q, limit, x as int);
        },
        Step::Split(goals) => {
            let next = rest + goals;
            let p = |v: int| mentions(v, next);
            let ps = a->Arrow_0;
            let qs = b->Arrow_0;
            assert forall|v: int| 0 <= v < limit && #[trigger] p(v) implies q(v) by {
                let i = choose|i: int|
                    0 <= i < next.len() && goal_mentions(v as u64, #[trigger] next[i]);
                if i < rest.len() {
                    assert(goal_mentions(v as u64, work[i]));
                } else {
                    let k = i - rest.len();
                    lemma_occurs_arrow(v as u64, ps, a->Arrow_1);
                    lemma_occurs_arrow(v as u64, qs, b->Arrow_1);
                    if k > 0 {
                        assert(next[i].0 == ps[ps.len() - k]);
                        assert(next[i].1 == qs[ps.len() - k]);
                    }
                    assert(goal_mentions(v as u64, work[work.len() - 1]));
                }
            }
            lemma_count_le(p, q, limit);
            lemma_weight_split(ps, *a->Arrow_1, qs, *b->Arrow_1);
            assert(weights(next) =~= weights(rest) + weights(goals));
            lemma_sum_concat(weights(rest), weights(goals));
        },
        Step::Fail(_) => {},
    }
}

/// The bindings that unify the two sides of every goal, found by taking the
/// goals from the end of the sequence, or the first conflict met on the way.
pub open spec fn solve(work: Seq<(Ty, Ty)>) -> Result<Seq<(u64, Ty)>, Conflict>
    decreases live(work), total(work),
{
    if work.len() == 0 {
        Ok(Seq::empty())
    } else {
        proof {
            lemma_progress(work);
        }
        match step(work.last().0, work.last().1) {
            Step::Skip => solve(work.drop_last()),
            Step::Bind(x, t) => prepend(seq![(x, t)], solve(replace_all(x, t, work.drop_last()))),
            Step::Split(goals) => solve(work.drop_last() + goals),
            Step::Fail(conflict) => Err(conflict),
        }
    }
}

/// The models of the two sides of each goal.
pub open spec fn goals(work: Seq<(Type, Type)>) -> Seq<(Ty, Ty)> {
    Seq::new(work.len(), |i: int| (work[i].0@, work[i].1@))
}

/// The diagnostic for a conflict met while unifying `expected` with `actual`
/// for the definition at `range`.
pub open spec fn failure(conflict: Conflict, expected: Ty, actual: Ty, range: Range) -> Failure {
    match conflict {
        Conflict::Mismatch => Failure::TypeMismatch { expected, actual, range, arity: None },
        Conflict::Arity(e, a) => Failure::TypeMismatch {
            expected,
            actual,
            range,
            arity: Some((e, a)),
        },
        Conflict::Occurs(variable, ty) => Failure::OccursCheckFailure { variable, ty, range },
    }
}

/// What unifying `expected` with `actual` for the definition at `range`
/// gives: the bindings, or the diagnostic.
pub open spec fn unification(expected: Ty, actual: Ty, range: Range) -> Result<
    Seq<(u64, Ty)>,
    Failure,
> {
    match solve(seq![(expected, actual)]) {
        Ok(bindings) => Ok(bindings),
        Err(conflict) => Err(failure(conflict, expected, actual, range)),
    }
}

/// Puts `t` in place of `x` in every goal, and records the binding.
fn bind(x: u64, t: Type, work: &mut Vec<(Type, Type)>, done: &mut Vec<(u64, Type)>)
    ensures
        goals(final(work)@) == replace_all(x, t@, goals(old(work)@)),
        binding_views(final(done)@) == binding_views(old(done)@).push((x, t@)),
{
    let mut next: Vec<(Type, Type)> = Vec::new();
    let mut i: usize = 0;
    while i < work.len()
        invariant
            i <= work.len(),
            next.len() == i,
            forall|j: int|
                0 <= j < i ==> (#[trigger] next[j]).0@ == substitute(x, t@, work[j].0@) && next[j].1@
                    == substitute(x, t@, work[j].1@),
        decreases work.len() - i,
    {
        let left = replace(x, &t, &work[i].0);
        let right = replace(x, &t, &work[i].1);
        next.push((left, right));
        i += 1;
    }
    proof {
        assert(goals(next@) =~= replace_all(x, t@, goals(work@)));
        assert(binding_views(done@.push((x, t))) =~= binding_views(done@).push((x, t@)));
    }
    *work = next;
    done.push((x, t));
}

/// Puts the goals that two arrows split into on the stack.
fn split(
    params_a: Vec<Type>,
    ret_a: Box<Type>,
    params_b: Vec<Type>,
    ret_b: Box<Type>,
    work: &mut Vec<(Type, Type)>,
)
    requires
        params_a.len() == params_b.len(),
    ensures
        goals(final(work)@) == goals(old(work)@) + split_goals(
            views(params_a@),
            ret_a@,
            views(params_b@),
            ret_b@,
        ),
{
    let ghost before = goals(work@);
    let ghost all = split_goals(views(params_a@), ret_a@, views(params_b@), ret_b@);
    let ghost n = params_a.len() as int;
    let mut ps = params_a;
    let mut qs = params_b;
    work.push((*ret_a, *ret_b));
    assert(goals(work@) =~= before + all.subrange(0, 1));
    while ps.len() > 0
        invariant
            n == params_a.len() == params_b.len(),
            ps.len() == qs.len() <= n,
            ps@ == params_a@.subrange(0, ps.len() as int),
            qs@ == params_b@.subrange(0, ps.len() as int),
            all == split_goals(views(params_a@), ret_a@, views(params_b@), ret_b@),
            goals(work@) == before + all.subrange(0, n + 1 - ps.len()),
        decreases ps.len(),
    {
        let ghost k = ps.len() as int;
        let p = ps.pop();
        let q = qs.pop();
        match (p, q) {
            (Some(p), Some(q)) => {
                let ghost earlier = goals(work@);
                work.push((p, q));
                proof {
                    assert(p == params_a@[k - 1] && q == params_b@[k - 1]);
                    assert(views(params_a@)[k - 1] == p@ && views(params_b@)[k - 1] == q@);
                    assert(all[n + 1 - k] == (p@, q@));
                    assert(goals(work@) =~= earlier.push((p@, q@)));
                    assert(all.subrange(0, n + 1 - (k - 1)) =~= all.subrange(0, n + 1 - k).push(
                        (p@, q@),
                    ));
                    assert(goals(work@) =~= before + all.subrange(0, n + 1 - (k - 1)));
                    assert(ps@ =~= params_a@.subrange(0, k - 1));
                    assert(qs@ =~= params_b@.subrange(0, k - 1));
                }
            },
            _ => {
                assert(false);
            },
        }
    }
    assert(all.subrange(0, n + 1) =~= all);
}

/// The diagnostic for two types that differ in kind or in name.
fn mismatch(expected: &Type, actual: &Type, range: Range, arity: Option<(usize, usize)>) -> (e:
    TyckError)
    ensures
        e@ == (Failure::TypeMismatch {
            expected: expected@,
            actual: actual@,
            range,
            arity: match arity {
                Some((e, a)) => Some((e as nat, a as nat)),
                None => None,
            },
        }),
{
    TyckError::TypeMismatch { expected: expected.clone(), actual: actual.clone(), range, arity }
}

/// Unifies `expected`, the declared type of the definition at `range`, with
/// `actual`, the type inferred for it. It succeeds exactly where some
/// substitution makes the two types equal, and then gives bindings that do.
/// Where it fails, the diagnostic tells the first conflict met when the
/// parameters of arrows are taken from the left and their return types last.
pub fn unify(expected: &Type, actual: &Type, range: Range) -> (res: Result<Substitution, TyckError>)
    ensures
        res is Ok <==> unifiable(expected@, actual@),
        match res {
            Ok(bindings) => unification(expected@, actual@, range) == Ok::<_, Failure>(bindings@)
                && resolve(bindings@, expected@) == resolve(bindings@, actual@),
            Err(e) => unification(expected@, actual@, range) == Err::<Seq<(u64, Ty)>, _>(e@),
        },
{
    let ghost start = seq![(expected@, actual@)];
    proof {
        lemma_unification(expected@, actual@, range);
    }
    let mut work: Vec<(Type, Type)> = Vec::new();
    let mut done: Vec<(u64, Type)> = Vec::new();
    work.push((expected.clone(), actual.clone()));
    proof {
        assert(goals(work@) =~= start);
        assert(binding_views(done@) + solve(start)->Ok_0 =~= solve(start)->Ok_0);
    }
    loop
        invariant
            start == seq![(expected@, actual@)],
            prepend(binding_views(done@), solve(goals(work@))) == solve(start),
            solve(start) is Ok <==> unifiable(expected@, actual@),
            solve(start) matches Ok(bindings) ==> resolve(bindings, expected@) == resolve(
                bindings,
                actual@,
            ),
        decreases live(goals(work@)), total(goals(work@)),
    {
        let ghost before = goals(work@);
        let ghost found = binding_views(done@);
        match work.pop() {
            None => {
                proof {
                    assert(found + Seq::<(u64, Ty)>::empty() =~= found);
                }
                return Ok(Substitution { bindings: done });
            },
            Some((a, b)) => {
                proof {
                    lemma_progress(before);
                    assert(goals(work@) =~= before.drop_last());
                    assert(before.last() == (a@, b@));
                }
                let var_a = variable_of(&a);
                let var_b = variable_of(&b);
                if let Some(x) = var_a {
                    if var_b == Some(x) {
                    } else if occurs_in(x, &b) {
                        return Err(TyckError::OccursCheckFailure { variable: x, ty: b, range });
                    } else {
                        bind(x, b, &mut work, &mut done);
                        proof {
                            let then = solve(goals(work@));
                            if then is Ok {
                                assert(found + (seq![(x, b@)] + then->Ok_0) =~= found.push(
                                    (x, b@),
                                ) + then->Ok_0);
                            }
                        }
                    }
                } else if let Some(y) = var_b {
                    if occurs_in(y, &a) {
                        return Err(TyckError::OccursCheckFailure { variable: y, ty: a, range });
                    } else {
                        bind(y, a, &mut work, &mut done);
                        proof {
                            let then = solve(goals(work@));
                            if then is Ok {
                                assert(found + (seq![(y, a@)] + then->Ok_0) =~= found.push(
                                    (y, a@),
                                ) + then->Ok_0);
                            }
                        }
                    }
                } else {
                    match (a, b) {
                        (Type::Base(n), Type::Base(m)) => {
                            if n != m {
                                return Err(mismatch(expected, actual, range, None));
                            }
                        },
                        (Type::Arrow(ps, r), Type::Arrow(qs, s)) => {
                            proof {
                                lemma_arrow_view(ps, r);
                                lemma_arrow_view(qs, s);
                            }
                            if ps.len() != qs.len() {
                                return Err(
                                    mismatch(expected, actual, range, Some((ps.len(), qs.len()))),
                                );
                            }
                            split(ps, r, qs, s, &mut work);
                        },
                        _ => {
                            return Err(mismatch(expected, actual, range, None));
                        },
                    }
                }
            },
        }
    }
}

/// The variable that the type is, if it is one.
fn variable_of(ty: &Type) -> (id: Option<u64>)
    ensures
        match id {
            Some(x) => ty@ == Ty::Free(x),
            None => !(ty@ is Free),
        },
{
    match ty {
        Type::Free(x) => Some(*x),
        _ => None,
    }
}

} // verus!
