//! Substitutions on types: the mathematical definitions and the executable
//! operations that compute them.

use crate::ast::{lemma_arrow_view, views, Ty, Type};
use vstd::prelude::*;

verus! {

/// Whether the variable `x` occurs in `u`.
pub open spec fn occurs(x: u64, u: Ty) -> bool
    decreases u,
{
    match u {
        Ty::Base(_) => false,
        Ty::Free(y) => x == y,
        Ty::Arrow(params, ret) => occurs(x, *ret) || exists|i: int|
            0 <= i < params.len() && occurs(x, #[trigger] params[i]),
    }
}

/// `u` with every occurrence of the variable `x` replaced by `t`.
pub open spec fn substitute(x: u64, t: Ty, u: Ty) -> Ty
    decreases u,
{
    match u {
        Ty::Base(_) => u,
        Ty::Free(y) => if x == y {
            t
        } else {
            u
        },
        Ty::Arrow(params, ret) => Ty::Arrow(
            Seq::new(
                params.len(),
                |i: int|
                    if 0 <= i < params.len() {
                        substitute(x, t, params[i])
                    } else {
                        arbitrary()
                    },
            ),
            Box::new(substitute(x, t, *ret)),
        ),
    }
}

/// `u` with every variable `x` replaced by `sigma(x)`, all at once.
pub open spec fn apply(sigma: spec_fn(u64) -> Ty, u: Ty) -> Ty
    decreases u,
{
    match u {
        Ty::Base(_) => u,
        Ty::Free(y) => sigma(y),
        Ty::Arrow(params, ret) => Ty::Arrow(
            Seq::new(
                params.len(),
                |i: int|
                    if 0 <= i < params.len() {
                        apply(sigma, params[i])
                    } else {
                        arbitrary()
                    },
            ),
            Box::new(apply(sigma, *ret)),
        ),
    }
}

/// `u` after the bindings of `bindings`, applied one after the other from the
/// first to the last.
pub open spec fn resolve(bindings: Seq<(u64, Ty)>, u: Ty) -> Ty
    decreases bindings.len(),
{
    if bindings.len() == 0 {
        u
    } else {
        resolve(bindings.drop_first(), substitute(bindings[0].0, bindings[0].1, u))
    }
}

/// A variable that occurs in a parameter or in the return type occurs in the
/// arrow, and only such a variable does.
pub proof fn lemma_occurs_arrow(x: u64, params: Seq<Ty>, ret: Box<Ty>)
    ensures
        occurs(x, Ty::Arrow(params, ret)) <==> (occurs(x, *ret) || exists|i: int|
            0 <= i < params.len() && occurs(x, #[trigger] params[i])),
{
    let a = Ty::Arrow(params, ret);
    assert(a->Arrow_0 == params);
    assert(occurs(x, *ret) ==> occurs(x, a));
    if exists|i: int| 0 <= i < params.len() && occurs(x, #[trigger] params[i]) {
        let i = choose|i: int| 0 <= i < params.len() && occurs(x, #[trigger] params[i]);
        assert(occurs(x, a->Arrow_0[i]));
        assert(occurs(x, a));
    }
    if occurs(x, a) && !occurs(x, *ret) {
        let j = choose|j: int| 0 <= j < a->Arrow_0.len() && occurs(x, #[trigger] a->Arrow_0[j]);
        assert(0 <= j < a->Arrow_0.len() && occurs(x, a->Arrow_0[j]));
    }
}

/// Each of the types after the bindings.
pub open spec fn resolve_each(bindings: Seq<(u64, Ty)>, types: Seq<Ty>) -> Seq<Ty> {
    Seq::new(types.len(), |i: int| resolve(bindings, types[i]))
}

/// The substitution that replaces all variables at once and does what the
/// bindings do one after the other.
pub open spec fn as_function(bindings: Seq<(u64, Ty)>) -> spec_fn(u64) -> Ty {
    |x: u64| resolve(bindings, Ty::Free(x))
}

/// The number of constructors in the type.
pub open spec fn size(u: Ty) -> nat
    decreases u, 0nat,
{
    match u {
        Ty::Arrow(params, ret) => 1 + size(*ret) + size_from(params, 0),
        _ => 1,
    }
}

/// The number of constructors in the types from index `from` on.
pub open spec fn size_from(types: Seq<Ty>, from: nat) -> nat
    decreases types, types.len() - from,
{
    if from < types.len() {
        size(types[from as int]) + size_from(types, from + 1)
    } else {
        0
    }
}

/// Replacing a variable that does not occur changes nothing.
pub proof fn lemma_substitute_absent(x: u64, t: Ty, u: Ty)
    requires
        !occurs(x, u),
    ensures
        substitute(x, t, u) == u,
    decreases u,
{
    match u {
        Ty::Arrow(ps, r) => {
            lemma_occurs_arrow(x, ps, r);
            lemma_substitute_absent(x, t, *r);
            assert forall|i: int| 0 <= i < ps.len() implies substitute(x, t, ps[i]) == ps[i] by {
                lemma_substitute_absent(x, t, ps[i]);
            }
            assert(substitute(x, t, u)->Arrow_0 =~= ps);
        },
        _ => {},
    }
}

/// A substitution that maps `x` and `t` to the same type cannot tell a type
/// from the same type with `t` in place of `x`.
pub proof fn lemma_apply_substitute(sigma: spec_fn(u64) -> Ty, x: u64, t: Ty, u: Ty)
    requires
        sigma(x) == apply(sigma, t),
    ensures
        apply(sigma, substitute(x, t, u)) == apply(sigma, u),
    decreases u,
{
    match u {
        Ty::Arrow(ps, r) => {
            lemma_apply_substitute(sigma, x, t, *r);
            assert forall|i: int| 0 <= i < ps.len() implies apply(sigma, substitute(x, t, ps[i]))
                == apply(sigma, ps[i]) by {
                lemma_apply_substitute(sigma, x, t, ps[i]);
            }
            assert(apply(sigma, substitute(x, t, u))->Arrow_0 =~= apply(sigma, u)->Arrow_0);
        },
        _ => {},
    }
}

/// Bindings leave a base type as it is.
pub proof fn lemma_resolve_base(bindings: Seq<(u64, Ty)>, name: Seq<char>)
    ensures
        resolve(bindings, Ty::Base(name)) == Ty::Base(name),
    decreases bindings.len(),
{
    if bindings.len() > 0 {
        lemma_resolve_base(bindings.drop_first(), name);
    }
}

/// Bindings act on an arrow part by part.
pub proof fn lemma_resolve_arrow(bindings: Seq<(u64, Ty)>, params: Seq<Ty>, ret: Ty)
    ensures
        resolve(bindings, Ty::Arrow(params, Box::new(ret))) == Ty::Arrow(
            resolve_each(bindings, params),
            Box::new(resolve(bindings, ret)),
        ),
    decreases bindings.len(),
{
    if bindings.len() == 0 {
        assert(resolve_each(bindings, params) =~= params);
    } else {
        let x = bindings[0].0;
        let t = bindings[0].1;
        let rest = bindings.drop_first();
        let next = substitute(x, t, Ty::Arrow(params, Box::new(ret)));
        lemma_resolve_arrow(rest, next->Arrow_0, substitute(x, t, ret));
        assert(resolve_each(rest, next->Arrow_0) =~= resolve_each(bindings, params));
    }
}

/// The bindings, one after the other, do what the substitution made of them
/// does at once.
pub proof fn lemma_as_function(bindings: Seq<(u64, Ty)>, u: Ty)
    ensures
        apply(as_function(bindings), u) == resolve(bindings, u),
    decreases u,
{
    match u {
        Ty::Base(name) => {
            lemma_resolve_base(bindings, name);
        },
        Ty::Free(_) => {},
        Ty::Arrow(ps, r) => {
            lemma_resolve_arrow(bindings, ps, *r);
            lemma_as_function(bindings, *r);
            assert forall|i: int| 0 <= i < ps.len() implies apply(as_function(bindings), ps[i])
                == resolve(bindings, ps[i]) by {
                lemma_as_function(bindings, ps[i]);
            }
            assert(apply(as_function(bindings), u)->Arrow_0 =~= resolve_each(bindings, ps));
        },
    }
}

/// A type in a sequence is no larger than the sequence from an index at or
/// before it.
pub proof fn lemma_size_from(types: Seq<Ty>, from: nat, i: int)
    requires
        from <= i < types.len(),
    ensures
        size(types[i]) <= size_from(types, from),
    decreases i - from,
{
    if from < i {
        lemma_size_from(types, from + 1, i);
    }
}

/// Under any substitution, a type is at least as large as what stands for a
/// variable that occurs in it, and an arrow is larger.
pub proof fn lemma_occurs_size(sigma: spec_fn(u64) -> Ty, x: u64, u: Ty)
    requires
        occurs(x, u),
    ensures
        size(sigma(x)) <= size(apply(sigma, u)),
        u is Arrow ==> size(sigma(x)) < size(apply(sigma, u)),
    decreases u,
{
    match u {
        Ty::Arrow(ps, r) => {
            let out = apply(sigma, u);
            lemma_occurs_arrow(x, ps, r);
            if occurs(x, *r) {
                lemma_occurs_size(sigma, x, *r);
            } else {
                let i = choose|i: int| 0 <= i < ps.len() && occurs(x, #[trigger] ps[i]);
                lemma_occurs_size(sigma, x, ps[i]);
                lemma_size_from(out->Arrow_0, 0, i);
            }
        },
        _ => {},
    }
}

/// The models of a sequence of bindings, element by element.
pub open spec fn binding_views(bindings: Seq<(u64, Type)>) -> Seq<(u64, Ty)> {
    Seq::new(bindings.len(), |i: int| (bindings[i].0, bindings[i].1@))
}

/// Whether `x` occurs in `u`.
pub fn occurs_in(x: u64, u: &Type) -> (found: bool)
    ensures
        found == occurs(x, u@),
    decreases u,
{
    match u {
        Type::Base(_) => false,
        Type::Free(y) => x == *y,
        Type::Arrow(params, ret) => {
            proof {
                lemma_arrow_view(*params, *ret);
            }
            if occurs_in(x, ret) {
                return true;
            }
            let mut i: usize = 0;
            while i < params.len()
                invariant
                    *u == Type::Arrow(*params, *ret),
                    u@ == Ty::Arrow(views(params@), Box::new(ret@)),
                    i <= params.len(),
                    forall|j: int| 0 <= j < i ==> !occurs(x, #[trigger] views(params@)[j]),
                decreases params.len() - i,
            {
                assert(decreases_to!(*u => u->Arrow_0));
                if occurs_in(x, &params[i]) {
                    proof {
                        assert(occurs(x, views(params@)[i as int]));
                        lemma_occurs_arrow(x, views(params@), Box::new(ret@));
                    }
                    return true;
                }
                i += 1;
            }
            proof {
                lemma_occurs_arrow(x, views(params@), Box::new(ret@));
            }
            false
        },
    }
}

/// A copy of `u` in which `t` stands in place of every occurrence of `x`.
pub fn replace(x: u64, t: &Type, u: &Type) -> (out: Type)
    ensures
        out@ == substitute(x, t@, u@),
    decreases u,
{
    match u {
        Type::Base(name) => Type::Base(name.clone()),
        Type::Free(y) => if x == *y {
            t.clone()
        } else {
            Type::Free(*y)
        },
        Type::Arrow(params, ret) => {
            let mut out: Vec<Type> = Vec::new();
            let mut i: usize = 0;
            while i < params.len()
                invariant
                    *u == Type::Arrow(*params, *ret),
                    i <= params.len(),
                    out.len() == i,
                    forall|j: int| 0 <= j < i ==> out[j]@ == substitute(x, t@, params[j]@),
                decreases params.len() - i,
            {
                assert(decreases_to!(*u => u->Arrow_0));
                out.push(replace(x, t, &params[i]));
                i += 1;
            }
            let r = replace(x, t, ret);
            proof {
                lemma_arrow_view(*params, *ret);
                lemma_arrow_view(out, Box::new(r));
                assert(views(out@) =~= substitute(x, t@, u@)->Arrow_0);
            }
            Type::Arrow(out, Box::new(r))
        },
    }
}

/// The bindings that unification found, in the order in which it found them:
/// a binding may mention the variables of the bindings after it, and none of
/// those before it.
#[derive(Debug, PartialEq, Eq)]
pub struct Substitution {
    pub bindings: Vec<(u64, Type)>,
}

impl View for Substitution {
    type V = Seq<(u64, Ty)>;

    open spec fn view(&self) -> Seq<(u64, Ty)> {
        binding_views(self.bindings@)
    }
}

impl Substitution {
    /// The type that `ty` stands for once every binding has been applied.
    pub fn apply(&self, ty: &Type) -> (out: Type)
        ensures
            out@ == resolve(self@, ty@),
    {
        let mut out = ty.clone();
        let mut i: usize = 0;
        assert(self@.subrange(0, self@.len() as int) =~= self@);
        while i < self.bindings.len()
            invariant
                i <= self.bindings.len(),
                resolve(self@, ty@) == resolve(self@.subrange(i as int, self@.len() as int), out@),
            decreases self.bindings.len() - i,
        {
            proof {
                let tail = self@.subrange(i as int, self@.len() as int);
                assert(tail.drop_first() =~= self@.subrange(i + 1, self@.len() as int));
                assert(tail[0] == (self.bindings[i as int].0, self.bindings[i as int].1@));
            }
            out = replace(self.bindings[i].0, &self.bindings[i].1, &out);
            i += 1;
        }
        out
    }
}

} // verus!
