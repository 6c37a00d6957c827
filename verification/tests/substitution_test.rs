use sfl_lib::ast::AST;
use sfl_lib::token::{Token, TokenType};
use sfl_lib::labels::LabelTable;
use sfl_lib::parser::Parser;
use sfl_lib::redex::find_single_redex_contraction_pair;

fn applied(program: &str) -> String {
    let pr = Parser::from_string(program.to_string()).parse_tl_expression(true).unwrap();
    let ast = pr.ast;
    let root = ast.root;
    let f = ast.get_func(root);
    let x = ast.get_arg(root);
    let r = ast.do_abst_subst(f, x);
    r.to_string_sugar(r.root, false)
}

#[test]
fn beta_replaces_every_use() {
    assert_eq!(applied("(\\x. add x x) 3"), "add 3 3");
}

#[test]
fn beta_respects_shadowing() {
    // \x. \x. x, built by hand: the parser refuses to bind a name twice
    let mut ast = AST::new();
    let x1 = ast.add_id(Token::new(TokenType::Id, "x".to_string()), 0, 0);
    let x2 = ast.add_id(Token::new(TokenType::Id, "x".to_string()), 0, 0);
    let use_x = ast.add_id(Token::new(TokenType::Id, "x".to_string()), 0, 0);
    let inner = ast.add_abstraction(x2, use_x, 0, 0);
    let outer = ast.add_abstraction(x1, inner, 0, 0);
    let three = ast.add_lit(Token::new(TokenType::IntLit, "3".to_string()), 0, 0);
    let r = ast.do_abst_subst(outer, three);
    assert_eq!(r.to_string_sugar(r.root, false), "\\x. x");
}

#[test]
fn beta_takes_pairs_apart() {
    assert_eq!(applied("(\\(a, b). add a b) (1, 2)"), "add 1 2");
}

#[test]
fn unused_variable_is_ignored() {
    assert_eq!(applied("(\\x. 5) 7"), "5");
}

#[test]
fn identity_gives_its_argument() {
    assert_eq!(applied("(\\x. x) (add 1 2)"), "add 1 2");
}

#[test]
fn multiple_arguments_innermost_first() {
    let pr = Parser::from_string("(\\x y. sub x y) 10 4".to_string()).parse_tl_expression(true).unwrap();
    let ast = pr.ast;
    let root = ast.root;
    let inner = ast.get_func(root);
    let abst = ast.get_func(inner);
    let ten = ast.get_arg(inner);
    let four = ast.get_arg(root);
    let r = ast.do_multiple_abst_substs(abst, vec![four, ten]);
    assert_eq!(r.to_string_sugar(r.root, false), "sub 10 4");
}

#[test]
fn contraction_reaches_every_copy_of_the_redex() {
    let program = "main :: Int\nmain = add (add 1 2) (add 1 2)";
    let pr = Parser::from_string(program.to_string()).parse_module(false).unwrap();
    let mut ast = pr.ast;
    let module = ast.root;
    let exp = ast.get_assign_exp(ast.get_main(module).unwrap());
    let rc = find_single_redex_contraction_pair(&ast, Some(module), exp, &LabelTable::new()).unwrap();
    assert_eq!(ast.rc_to_str(&rc), "add 1 2 -> 3");
    let r = ast.do_rc_subst(exp, &rc);
    assert_eq!(r, exp);
    assert_eq!(ast.to_string_sugar(exp, false), "add 3 3");
}

#[test]
fn contraction_of_the_whole_expression() {
    let program = "main :: Int\nmain = add 1 2";
    let pr = Parser::from_string(program.to_string()).parse_module(false).unwrap();
    let mut ast = pr.ast;
    let module = ast.root;
    let exp = ast.get_assign_exp(ast.get_main(module).unwrap());
    let rc = find_single_redex_contraction_pair(&ast, Some(module), exp, &LabelTable::new()).unwrap();
    let r = ast.do_rc_subst(exp, &rc);
    assert_ne!(r, exp);
    assert_eq!(ast.to_string_sugar(r, false), "3");
}

#[test]
fn contraction_does_not_enter_abstractions() {
    let program = "main :: Int\nmain = (\\x. add 1 2) (add 1 2)";
    let pr = Parser::from_string(program.to_string()).parse_module(false).unwrap();
    let mut ast = pr.ast;
    let module = ast.root;
    let exp = ast.get_assign_exp(ast.get_main(module).unwrap());
    let arg = ast.get_arg(exp);
    let rcs = sfl_lib::redex::find_all_redex_contraction_pairs(&ast, Some(module), arg, &LabelTable::new());
    assert_eq!(rcs.len(), 1);
    ast.do_rc_subst(exp, &rcs[0]);
    assert_eq!(ast.to_string_sugar(exp, false), "(\\x. add 1 2) 3");
}

#[test]
fn clone_node_roots_copy_at_zero() {
    let pr = Parser::from_string("x :: Int\nx = (\\y. y) 10".to_string())
        .parse_module(false)
        .unwrap();
    let ast = pr.ast;
    let module = ast.root;
    let a = ast.get_assign_to(module, "x".to_string()).unwrap();
    let copy = ast.clone_node(a);
    assert_eq!(copy.root, 0);
    assert_eq!((copy.get(0).line, copy.get(0).col), (ast.get(a).line, ast.get(a).col));
    assert_eq!(copy.get(0).type_assignment.as_ref().unwrap().to_string(), "Int");
    assert_eq!(copy.to_string_sugar(0, false), ast.to_string_sugar(a, false));
    let e = ast.get_assign_exp(a);
    let copy_e = ast.clone_node(e);
    assert_eq!(copy_e.root, 0);
    assert_eq!(copy_e.to_string_sugar(0, false), ast.to_string_sugar(e, false));
}
