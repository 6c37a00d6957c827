use sfl_lib::infer::infer_or_check_assignment_types;
use sfl_lib::parser::Parser;

fn parse(program: &str) -> sfl_lib::ast::AST {
    Parser::from_string(program.to_string())
        .parse_module(false)
        .unwrap()
        .ast
}

#[test]
fn infer_fills_in_missing_type() {
    let mut ast = parse("x = 10\nmain :: Int\nmain = add x 2");
    let module = ast.root;
    let lt = infer_or_check_assignment_types(&mut ast, module).unwrap();
    let x = ast.get_assign_to(module, "x".to_string()).unwrap();
    let t = ast.get(x).type_assignment.as_ref().unwrap();
    assert_eq!(t.to_string(), "Int");
    let label = lt.get(0, "x".to_string()).unwrap();
    assert_eq!(label.label_type.to_string(), "Int");
    assert!(lt.get(2, "add".to_string()).is_some());
}

#[test]
fn infer_generalises_function() {
    let mut ast = parse("ident = \\x. x");
    let module = ast.root;
    let lt = infer_or_check_assignment_types(&mut ast, module).unwrap();
    let a = ast.get_assign_to(module, "ident".to_string()).unwrap();
    let t = ast.get(a).type_assignment.as_ref().unwrap();
    assert!(matches!(t, sfl_lib::types::Type::Forall(_, _)));
    assert!(lt.get(1, "ident".to_string()).is_some());
}

#[test]
fn infer_checks_annotated_assignment() {
    let mut ast = parse("main :: Bool\nmain = add 2 2");
    let module = ast.root;
    assert!(infer_or_check_assignment_types(&mut ast, module).is_err());
}

#[test]
fn infer_refuses_unannotated_recursion() {
    let mut ast = parse("f = \\x. f x");
    let module = ast.root;
    let e = match infer_or_check_assignment_types(&mut ast, module) {
        Ok(_) => panic!("recursion without a type was accepted"),
        Err(e) => e,
    };
    assert_eq!(
        e.e,
        "Cannot infer type of expression containing recursive call. Assign a type to label 'f'"
    );
}

#[test]
fn infer_keeps_types_found_before_a_failure() {
    let mut ast = parse("x = 10\ny :: Bool\ny = x");
    let module = ast.root;
    assert!(infer_or_check_assignment_types(&mut ast, module).is_err());
    let x = ast.get_assign_to(module, "x".to_string()).unwrap();
    assert_eq!(ast.get(x).type_assignment.as_ref().unwrap().to_string(), "Int");
}
