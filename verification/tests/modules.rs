use tyck::ast::{Expr, File, Range, Top, Type};
use tyck::check::{
    check_definition, check_module, collect, first_redeclaration, fresh_demand_fits,
};
use tyck::error::TyckError;
use tyck::infer::Context;

fn at(start: usize, end: usize) -> Range {
    Range { start, end }
}

fn base(name: &str) -> Type {
    Type::Base(name.to_string())
}

fn arrow(params: Vec<Type>, ret: Type) -> Type {
    Type::Arrow(params, Box::new(ret))
}

fn id(range: Range, name: &str) -> Expr {
    Expr::Id(range, name.to_string())
}

fn names(list: &[&str]) -> Vec<String> {
    list.iter().map(|n| n.to_string()).collect()
}

fn decl(range: Range, name: &str, ty: Type) -> Top {
    Top::TypeDecl(range, name.to_string(), ty)
}

fn proc(range: Range, name: &str, params: &[&str], body: Expr) -> Top {
    Top::DefineProc(range, name.to_string(), names(params), body)
}

fn var(range: Range, name: &str, value: Expr) -> Top {
    Top::DefineVar(range, name.to_string(), value)
}

fn module(top_list: Vec<Top>) -> File {
    File { name: "hello.ss".to_string(), source: String::new(), top_list }
}

fn check(top_list: Vec<Top>) -> Result<(), TyckError> {
    let file = module(top_list);
    assert!(fresh_demand_fits(&file));
    check_module(&file)
}

#[test]
fn identity_procedure_matches_its_declaration() {
    let result = check(vec![
        decl(at(0, 17), "f", arrow(vec![base("i64")], base("i64"))),
        proc(at(18, 26), "f", &["x"], id(at(25, 26), "x")),
    ]);
    assert_eq!(result, Ok(()));
}

#[test]
fn integer_literal_against_another_base_type() {
    let result = check(vec![
        decl(at(0, 7), "y", base("f64")),
        var(at(8, 13), "y", Expr::Int(at(12, 13), 5)),
    ]);
    assert_eq!(
        result,
        Err(TyckError::TypeMismatch {
            expected: base("f64"),
            actual: base("i64"),
            range: at(8, 13),
            arity: None,
        })
    );
}

#[test]
fn reference_to_a_name_without_binding() {
    let result = check(vec![
        decl(at(0, 7), "z", base("i64")),
        var(at(8, 13), "z", id(at(12, 13), "w")),
    ]);
    assert_eq!(
        result,
        Err(TyckError::IdentifierNotFound { name: "w".to_string(), range: at(12, 13) })
    );
}

#[test]
fn definition_without_declaration() {
    let result = check(vec![var(at(0, 5), "z", Expr::Int(at(4, 5), 1))]);
    assert_eq!(
        result,
        Err(TyckError::IdentifierNotFound { name: "z".to_string(), range: at(0, 5) })
    );
}

#[test]
fn procedure_with_fewer_parameters_than_declared() {
    let declared = arrow(vec![base("i64"), base("i64")], base("i64"));
    let result = check(vec![
        decl(at(0, 22), "g", arrow(vec![base("i64"), base("i64")], base("i64"))),
        proc(at(23, 31), "g", &["a"], id(at(30, 31), "a")),
    ]);
    assert_eq!(
        result,
        Err(TyckError::TypeMismatch {
            expected: declared,
            actual: arrow(vec![Type::Free(0)], Type::Free(0)),
            range: at(23, 31),
            arity: Some((2, 1)),
        })
    );
}

#[test]
fn procedure_with_more_parameters_than_declared() {
    let result = check(vec![
        decl(at(0, 10), "g", arrow(vec![], base("i64"))),
        proc(at(11, 20), "g", &["a", "b"], Expr::Int(at(19, 20), 0)),
    ]);
    assert_eq!(
        result,
        Err(TyckError::TypeMismatch {
            expected: arrow(vec![], base("i64")),
            actual: arrow(vec![Type::Free(0), Type::Free(1)], base("i64")),
            range: at(11, 20),
            arity: Some((0, 2)),
        })
    );
}

#[test]
fn empty_module_passes() {
    assert_eq!(check(vec![]), Ok(()));
}

#[test]
fn declarations_alone_pass() {
    assert_eq!(check(vec![decl(at(0, 7), "y", base("f64"))]), Ok(()));
}

#[test]
fn declaration_may_follow_its_definition() {
    let result = check(vec![
        var(at(0, 5), "y", Expr::Int(at(4, 5), 5)),
        decl(at(6, 13), "y", base("i64")),
    ]);
    assert_eq!(result, Ok(()));
}

#[test]
fn moving_declarations_keeps_success() {
    let before = check(vec![
        decl(at(0, 1), "a", base("i64")),
        decl(at(2, 3), "f", arrow(vec![base("i64")], base("i64"))),
        var(at(4, 5), "a", Expr::Int(at(4, 5), 1)),
        proc(at(6, 7), "f", &["x"], id(at(6, 7), "a")),
    ]);
    let after = check(vec![
        var(at(4, 5), "a", Expr::Int(at(4, 5), 1)),
        decl(at(0, 1), "a", base("i64")),
        proc(at(6, 7), "f", &["x"], id(at(6, 7), "a")),
        decl(at(2, 3), "f", arrow(vec![base("i64")], base("i64"))),
    ]);
    assert_eq!(before, Ok(()));
    assert_eq!(after, before);
}

#[test]
fn moving_declarations_keeps_the_diagnostic() {
    let before = check(vec![
        decl(at(0, 1), "a", base("f64")),
        decl(at(2, 3), "b", base("i64")),
        var(at(4, 5), "a", Expr::Int(at(4, 5), 1)),
        var(at(6, 7), "b", id(at(6, 7), "c")),
    ]);
    let after = check(vec![
        var(at(4, 5), "a", Expr::Int(at(4, 5), 1)),
        var(at(6, 7), "b", id(at(6, 7), "c")),
        decl(at(0, 1), "a", base("f64")),
        decl(at(2, 3), "b", base("i64")),
    ]);
    assert_eq!(
        before,
        Err(TyckError::TypeMismatch {
            expected: base("f64"),
            actual: base("i64"),
            range: at(4, 5),
            arity: None,
        })
    );
    assert_eq!(after, before);
}

#[test]
fn first_failing_definition_is_reported() {
    let result = check(vec![
        decl(at(0, 1), "a", base("i64")),
        decl(at(2, 3), "b", base("i64")),
        decl(at(4, 5), "c", base("f64")),
        var(at(6, 7), "a", Expr::Int(at(6, 7), 1)),
        var(at(8, 9), "b", id(at(8, 9), "missing")),
        var(at(10, 11), "c", Expr::Int(at(10, 11), 2)),
    ]);
    assert_eq!(
        result,
        Err(TyckError::IdentifierNotFound { name: "missing".to_string(), range: at(8, 9) })
    );
}

#[test]
fn last_declaration_of_a_name_wins() {
    let passes = check(vec![
        decl(at(0, 1), "a", base("f64")),
        decl(at(2, 3), "a", base("i64")),
        var(at(4, 5), "a", Expr::Int(at(4, 5), 1)),
    ]);
    assert_eq!(passes, Ok(()));
    let fails = check(vec![
        decl(at(0, 1), "a", base("i64")),
        decl(at(2, 3), "a", base("f64")),
        var(at(4, 5), "a", Expr::Int(at(4, 5), 1)),
    ]);
    assert_eq!(
        fails,
        Err(TyckError::TypeMismatch {
            expected: base("f64"),
            actual: base("i64"),
            range: at(4, 5),
            arity: None,
        })
    );
}

#[test]
fn parameter_hides_a_declared_name() {
    let result = check(vec![
        decl(at(0, 1), "x", base("f64")),
        decl(at(2, 3), "f", arrow(vec![base("i64")], base("i64"))),
        proc(at(4, 5), "f", &["x"], id(at(4, 5), "x")),
    ]);
    assert_eq!(result, Ok(()));
}

#[test]
fn body_may_name_a_declared_value() {
    let result = check(vec![
        decl(at(0, 1), "one", base("i64")),
        decl(at(2, 3), "f", arrow(vec![base("f64")], base("i64"))),
        proc(at(4, 5), "f", &["x"], id(at(4, 5), "one")),
    ]);
    assert_eq!(result, Ok(()));
}

#[test]
fn parameters_of_nested_lambdas_are_distinct() {
    let body = Expr::Lambda(at(5, 9), names(&["b"]), Box::new(id(at(8, 9), "a")));
    let passes = check(vec![
        decl(at(0, 1), "k", arrow(vec![base("i64")], arrow(vec![base("f64")], base("i64")))),
        proc(at(2, 9), "k", &["a"], body),
    ]);
    assert_eq!(passes, Ok(()));
    let body = Expr::Lambda(at(5, 9), names(&["b"]), Box::new(id(at(8, 9), "a")));
    let declared = arrow(vec![base("i64")], arrow(vec![base("f64")], base("f64")));
    let fails = check(vec![
        decl(at(0, 1), "k", arrow(vec![base("i64")], arrow(vec![base("f64")], base("f64")))),
        proc(at(2, 9), "k", &["a"], body),
    ]);
    assert_eq!(
        fails,
        Err(TyckError::TypeMismatch {
            expected: declared,
            actual: arrow(vec![Type::Free(0)], arrow(vec![Type::Free(1)], Type::Free(0))),
            range: at(2, 9),
            arity: None,
        })
    );
}

#[test]
fn one_parameter_cannot_have_two_types() {
    let result = check(vec![
        decl(at(0, 1), "f", arrow(vec![base("i64")], base("f64"))),
        proc(at(2, 3), "f", &["x"], id(at(2, 3), "x")),
    ]);
    assert_eq!(
        result,
        Err(TyckError::TypeMismatch {
            expected: arrow(vec![base("i64")], base("f64")),
            actual: arrow(vec![Type::Free(0)], Type::Free(0)),
            range: at(2, 3),
            arity: None,
        })
    );
}

#[test]
fn variable_defined_as_a_lambda() {
    let value = Expr::Lambda(at(4, 9), names(&["x", "y"]), Box::new(id(at(8, 9), "y")));
    let result = check(vec![
        decl(at(0, 1), "snd", arrow(vec![base("f64"), base("i64")], base("i64"))),
        var(at(2, 9), "snd", value),
    ]);
    assert_eq!(result, Ok(()));
}

#[test]
fn declared_variable_that_would_contain_itself() {
    let result = check(vec![
        decl(at(0, 1), "h", Type::Free(0)),
        proc(at(2, 3), "h", &["x"], id(at(2, 3), "x")),
    ]);
    assert_eq!(
        result,
        Err(TyckError::OccursCheckFailure {
            variable: 0,
            ty: arrow(vec![Type::Free(0)], Type::Free(0)),
            range: at(2, 3),
        })
    );
}

#[test]
fn type_variables_are_numbered_through_the_module() {
    let result = check(vec![
        decl(at(0, 1), "f", arrow(vec![base("i64"), base("i64")], base("i64"))),
        decl(at(2, 3), "g", arrow(vec![base("i64"), base("i64")], base("i64"))),
        proc(at(4, 5), "f", &["a", "b"], id(at(4, 5), "b")),
        proc(at(6, 7), "g", &["a"], id(at(6, 7), "a")),
    ]);
    assert_eq!(
        result,
        Err(TyckError::TypeMismatch {
            expected: arrow(vec![base("i64"), base("i64")], base("i64")),
            actual: arrow(vec![Type::Free(2)], Type::Free(2)),
            range: at(6, 7),
            arity: Some((2, 1)),
        })
    );
}

#[test]
fn collect_parts_declarations_from_definitions() {
    let file = module(vec![
        var(at(0, 1), "a", Expr::Int(at(0, 1), 1)),
        decl(at(2, 3), "a", base("i64")),
        proc(at(4, 5), "f", &["x"], id(at(4, 5), "x")),
        decl(at(6, 7), "a", base("f64")),
    ]);
    let (ctx, list) = collect(&file);
    assert_eq!(list.len(), 2);
    assert_eq!(*list[0], var(at(0, 1), "a", Expr::Int(at(0, 1), 1)));
    assert_eq!(*list[1], proc(at(4, 5), "f", &["x"], id(at(4, 5), "x")));
    assert_eq!(ctx.lookup(&"a".to_string()), Some(base("f64")));
    assert_eq!(ctx.lookup(&"f".to_string()), None);
}

#[test]
fn check_definition_returns_the_next_type_variable() {
    let mut ctx = Context::new();
    ctx.declare("f".to_string(), arrow(vec![base("i64"), base("f64")], base("f64")));
    let def = proc(at(0, 1), "f", &["a", "b"], id(at(0, 1), "b"));
    assert_eq!(check_definition(&ctx, &def, 7), Ok(9));
    let declaration = decl(at(0, 1), "f", base("i64"));
    assert_eq!(check_definition(&ctx, &declaration, 7), Ok(7));
}

#[test]
fn demand_of_a_small_module_fits() {
    let file = module(vec![
        proc(at(0, 1), "f", &["a", "b"], Expr::Lambda(at(0, 1), names(&["c"]), Box::new(Expr::Int(at(0, 1), 0)))),
    ]);
    assert!(fresh_demand_fits(&file));
}

#[test]
fn first_redeclaration_is_found() {
    let file = module(vec![
        decl(at(0, 1), "a", base("i64")),
        var(at(2, 3), "b", Expr::Int(at(2, 3), 1)),
        decl(at(4, 5), "b", base("i64")),
        decl(at(6, 7), "a", base("f64")),
        decl(at(8, 9), "b", base("f64")),
    ]);
    assert_eq!(first_redeclaration(&file), Some(3));
}

#[test]
fn names_declared_once_are_no_redeclaration() {
    let file = module(vec![
        decl(at(0, 1), "a", base("i64")),
        var(at(2, 3), "a", Expr::Int(at(2, 3), 1)),
        var(at(4, 5), "a", Expr::Int(at(4, 5), 2)),
        decl(at(6, 7), "b", base("f64")),
    ]);
    assert_eq!(first_redeclaration(&file), None);
    assert_eq!(first_redeclaration(&module(vec![])), None);
}
