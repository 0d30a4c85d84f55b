//! The syntax tree that the checker consumes, and the mathematical model of
//! its types.

use vstd::prelude::*;

verus! {

/// A half-open span of byte offsets into the source text.
#[derive(Debug, Clone, Copy, PartialEq, Eq, Structural)]
pub struct Range {
    pub start: usize,
    pub end: usize,
}

/// The mathematical model of a type: a name is a sequence of characters, the
/// parameters of an arrow are a sequence of models.
pub enum Ty {
    Base(Seq<char>),
    Arrow(Seq<Ty>, Box<Ty>),
    Free(u64),
}

/// A type as it appears in a declaration or as inference produces it.
#[derive(Debug, PartialEq, Eq)]
pub enum Type {
    /// A base type, identified by its name.
    Base(String),
    /// A procedure type: parameter types and return type.
    Arrow(Vec<Type>, Box<Type>),
    /// A type variable that has not been resolved yet.
    Free(u64),
}

impl Type {
    /// The model of the type.
    pub open spec fn model(self) -> Ty
        decreases self,
    {
        match self {
            Type::Base(name) => Ty::Base(name@),
            Type::Arrow(params, ret) => Ty::Arrow(
                Seq::new(
                    params.len() as nat,
                    |i: int| if 0 <= i < params.len() { params[i].model() } else { arbitrary() },
                ),
                Box::new(ret.model()),
            ),
            Type::Free(id) => Ty::Free(id),
        }
    }
}

impl View for Type {
    type V = Ty;

    open spec fn view(&self) -> Ty {
        self.model()
    }
}

/// The models of a sequence of types, element by element.
pub open spec fn views(types: Seq<Type>) -> Seq<Ty> {
    Seq::new(types.len(), |i: int| types[i]@)
}

/// The model of an arrow type is the arrow of its parts' models.
pub proof fn lemma_arrow_view(params: Vec<Type>, ret: Box<Type>)
    ensures
        Type::Arrow(params, ret)@ == Ty::Arrow(views(params@), Box::new(ret@)),
{
    assert(Type::Arrow(params, ret).model()->Arrow_0 =~= views(params@));
}

impl Type {
    /// A deep copy of the type.
    fn duplicate(&self) -> (copy: Type)
        ensures
            copy@ == self@,
        decreases self,
    {
        match self {
            Type::Base(name) => Type::Base(name.clone()),
            Type::Arrow(params, ret) => {
                let mut out: Vec<Type> = Vec::new();
                let mut i: usize = 0;
                while i < params.len()
                    invariant
                        *self == Type::Arrow(*params, *ret),
                        i <= params.len(),
                        out.len() == i,
                        forall|j: int| 0 <= j < i ==> out[j]@ == params[j]@,
                    decreases params.len() - i,
                {
                    assert(decreases_to!(*self => self->Arrow_0));
                    out.push(params[i].duplicate());
                    i += 1;
                }
                let r = ret.duplicate();
                proof {
                    lemma_arrow_view(*params, *ret);
                    lemma_arrow_view(out, Box::new(r));
                    assert(views(out@) =~= views(params@));
                }
                Type::Arrow(out, Box::new(r))
            },
            Type::Free(id) => Type::Free(*id),
        }
    }
}

impl Clone for Type {
    fn clone(&self) -> (copy: Type)
        ensures
            copy@ == self@,
    {
        self.duplicate()
    }
}

/// An expression.
#[derive(Debug, PartialEq, Eq)]
pub enum Expr {
    /// A reference to a name.
    Id(Range, String),
    /// An integer literal.
    Int(Range, i64),
    /// An anonymous procedure: parameter names and body.
    Lambda(Range, Vec<String>, Box<Expr>),
}

/// A top-level item of a module.
#[derive(Debug, PartialEq, Eq)]
pub enum Top {
    /// The declared type of a name.
    TypeDecl(Range, String, Type),
    /// A procedure: name, parameter names and body.
    DefineProc(Range, String, Vec<String>, Expr),
    /// A variable: name and value.
    DefineVar(Range, String, Expr),
}

/// A parsed module: the name and text of its source, which the ranges point
/// into, and its top-level items in source order.
#[derive(Debug, PartialEq, Eq)]
pub struct File {
    pub name: String,
    pub source: String,
    pub top_list: Vec<Top>,
}

/// The number of parameters that the lambdas of the expression bind.
pub open spec fn binders(e: Expr) -> nat
    decreases e,
{
    match e {
        Expr::Lambda(_, params, body) => (params.len() + binders(*body)) as nat,
        _ => 0,
    }
}

} // verus!
