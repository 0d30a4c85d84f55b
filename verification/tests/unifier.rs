use tyck::ast::{Range, Type};
use tyck::error::TyckError;
use tyck::subst::{occurs_in, replace, Substitution};
use tyck::unify::unify;

fn here() -> Range {
    Range { start: 3, end: 8 }
}

fn base(name: &str) -> Type {
    Type::Base(name.to_string())
}

fn arrow(params: Vec<Type>, ret: Type) -> Type {
    Type::Arrow(params, Box::new(ret))
}

#[test]
fn equal_base_types_unify_without_bindings() {
    let found = unify(&base("i64"), &base("i64"), here());
    assert_eq!(found, Ok(Substitution { bindings: vec![] }));
}

#[test]
fn different_base_types_do_not_unify() {
    let found = unify(&base("f64"), &base("i64"), here());
    assert_eq!(
        found,
        Err(TyckError::TypeMismatch {
            expected: base("f64"),
            actual: base("i64"),
            range: here(),
            arity: None,
        })
    );
}

#[test]
fn identity_lambda_against_its_declared_type() {
    let expected = arrow(vec![base("i64")], base("i64"));
    let actual = arrow(vec![Type::Free(4)], Type::Free(4));
    let found = unify(&expected, &actual, here()).unwrap();
    assert_eq!(found, Substitution { bindings: vec![(4, base("i64"))] });
    assert_eq!(found.apply(&Type::Free(4)), base("i64"));
    assert_eq!(found.apply(&actual), expected);
    assert_eq!(found.apply(&expected), expected);
}

#[test]
fn variable_on_the_expected_side_is_bound() {
    let found = unify(&Type::Free(1), &base("i64"), here());
    assert_eq!(found, Ok(Substitution { bindings: vec![(1, base("i64"))] }));
}

#[test]
fn two_variables_are_merged() {
    let found = unify(&Type::Free(1), &Type::Free(2), here()).unwrap();
    assert_eq!(found, Substitution { bindings: vec![(1, Type::Free(2))] });
    assert_eq!(found.apply(&Type::Free(1)), found.apply(&Type::Free(2)));
}

#[test]
fn a_variable_unifies_with_itself() {
    let found = unify(&Type::Free(6), &Type::Free(6), here());
    assert_eq!(found, Ok(Substitution { bindings: vec![] }));
}

#[test]
fn bindings_reach_the_goals_that_remain() {
    let expected = arrow(vec![Type::Free(0), Type::Free(0)], Type::Free(1));
    let actual = arrow(vec![Type::Free(1), base("i64")], Type::Free(2));
    let found = unify(&expected, &actual, here()).unwrap();
    assert_eq!(
        found,
        Substitution {
            bindings: vec![(0, Type::Free(1)), (1, base("i64")), (2, base("i64"))],
        }
    );
    let all_int = arrow(vec![base("i64"), base("i64")], base("i64"));
    assert_eq!(found.apply(&expected), all_int);
    assert_eq!(found.apply(&actual), all_int);
}

#[test]
fn base_type_against_arrow() {
    let actual = arrow(vec![], base("i64"));
    let found = unify(&base("i64"), &actual, here());
    assert_eq!(
        found,
        Err(TyckError::TypeMismatch {
            expected: base("i64"),
            actual: arrow(vec![], base("i64")),
            range: here(),
            arity: None,
        })
    );
    let found = unify(&actual, &base("i64"), here());
    assert_eq!(
        found,
        Err(TyckError::TypeMismatch {
            expected: arrow(vec![], base("i64")),
            actual: base("i64"),
            range: here(),
            arity: None,
        })
    );
}

#[test]
fn arrows_of_different_arity() {
    let expected = arrow(vec![base("i64"), base("i64")], base("i64"));
    let actual = arrow(vec![Type::Free(0)], Type::Free(0));
    let found = unify(&expected, &actual, here());
    assert_eq!(
        found,
        Err(TyckError::TypeMismatch {
            expected: arrow(vec![base("i64"), base("i64")], base("i64")),
            actual: arrow(vec![Type::Free(0)], Type::Free(0)),
            range: here(),
            arity: Some((2, 1)),
        })
    );
}

#[test]
fn arity_of_inner_arrows_is_reported_with_the_whole_types() {
    let expected = arrow(vec![arrow(vec![base("a")], base("b"))], base("c"));
    let actual = arrow(vec![arrow(vec![], base("b"))], base("c"));
    let found = unify(&expected, &actual, here());
    assert_eq!(
        found,
        Err(TyckError::TypeMismatch {
            expected: arrow(vec![arrow(vec![base("a")], base("b"))], base("c")),
            actual: arrow(vec![arrow(vec![], base("b"))], base("c")),
            range: here(),
            arity: Some((1, 0)),
        })
    );
}

#[test]
fn parameters_are_compared_before_return_types() {
    let expected = arrow(vec![base("i64"), arrow(vec![], base("i64"))], base("i64"));
    let actual = arrow(vec![base("i64"), arrow(vec![base("i64")], base("i64"))], base("f64"));
    match unify(&expected, &actual, here()) {
        Err(TyckError::TypeMismatch { arity, .. }) => assert_eq!(arity, Some((0, 1))),
        other => panic!("unexpected {:?}", other),
    }
    let expected = arrow(vec![base("i64"), base("f64")], arrow(vec![], base("i64")));
    let actual = arrow(vec![base("i64"), base("i64")], arrow(vec![base("i64")], base("i64")));
    match unify(&expected, &actual, here()) {
        Err(TyckError::TypeMismatch { arity, .. }) => assert_eq!(arity, None),
        other => panic!("unexpected {:?}", other),
    }
}

#[test]
fn variable_inside_the_type_it_meets() {
    let actual = arrow(vec![Type::Free(3)], base("i64"));
    let found = unify(&Type::Free(3), &actual, here());
    assert_eq!(
        found,
        Err(TyckError::OccursCheckFailure {
            variable: 3,
            ty: arrow(vec![Type::Free(3)], base("i64")),
            range: here(),
        })
    );
    let found = unify(&actual, &Type::Free(3), here());
    assert_eq!(
        found,
        Err(TyckError::OccursCheckFailure {
            variable: 3,
            ty: arrow(vec![Type::Free(3)], base("i64")),
            range: here(),
        })
    );
}

#[test]
fn occurs_check_after_a_binding() {
    let expected = arrow(vec![Type::Free(0)], Type::Free(0));
    let actual = arrow(vec![Type::Free(1)], arrow(vec![Type::Free(1)], base("i64")));
    let found = unify(&expected, &actual, here());
    assert_eq!(
        found,
        Err(TyckError::OccursCheckFailure {
            variable: 1,
            ty: arrow(vec![Type::Free(1)], base("i64")),
            range: here(),
        })
    );
}

#[test]
fn occurs_in_finds_variables_at_any_depth() {
    let ty = arrow(vec![base("i64"), arrow(vec![Type::Free(2)], base("i64"))], Type::Free(5));
    assert!(occurs_in(2, &ty));
    assert!(occurs_in(5, &ty));
    assert!(!occurs_in(3, &ty));
    assert!(!occurs_in(0, &base("i64")));
    assert!(occurs_in(0, &Type::Free(0)));
}

#[test]
fn replace_puts_the_type_at_every_occurrence() {
    let ty = arrow(vec![Type::Free(1), Type::Free(2)], Type::Free(1));
    let put = arrow(vec![], base("i64"));
    assert_eq!(
        replace(1, &put, &ty),
        arrow(vec![arrow(vec![], base("i64")), Type::Free(2)], arrow(vec![], base("i64")))
    );
    assert_eq!(replace(7, &put, &ty), ty);
    assert_eq!(replace(1, &put, &base("i64")), base("i64"));
}

#[test]
fn bindings_are_applied_in_order() {
    let s = Substitution { bindings: vec![(0, Type::Free(1)), (1, base("i64"))] };
    assert_eq!(s.apply(&Type::Free(0)), base("i64"));
    assert_eq!(s.apply(&Type::Free(1)), base("i64"));
    assert_eq!(s.apply(&Type::Free(2)), Type::Free(2));
    let s = Substitution { bindings: vec![(1, base("i64")), (0, Type::Free(1))] };
    assert_eq!(s.apply(&Type::Free(0)), Type::Free(1));
}

#[test]
fn cloned_type_equals_its_source() {
    let ty = arrow(vec![base("i64"), arrow(vec![Type::Free(2)], base("f64"))], Type::Free(5));
    assert_eq!(ty.clone(), ty);
}
