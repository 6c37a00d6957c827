use sfl_lib::checker::typecheck;
use sfl_lib::labels::LabelTable;
use sfl_lib::parser::Parser;
use sfl_lib::redex::{find_all_redex_contraction_pairs, find_single_redex_contraction_pair};

#[test]
fn reduce_test_basic_add_test() {
    let program = "main :: Int\nmain = add 5 1";
    let ast = Parser::from_string(program.to_string()).parse_module(false).unwrap().ast;

    let module = ast.root;
    let exp = ast.get_assign_exp(ast.get_main(module).unwrap());

    let rcs = find_all_redex_contraction_pairs(&ast, Some(module), exp, &LabelTable::new());
    assert!(rcs.len() == 1);
    println!("{}", ast.rc_to_str(&rcs[0]));
}

#[test]
fn waits_for_eval() {
    let program = "func :: a -> a\nfunc x = x\nmain :: Int\nmain = func (add 5 1)";
    let pr = Parser::from_string(program.to_string()).parse_module(false).unwrap();
    let mut ast = pr.ast;
    let mut lt = pr.lt;
    let tm = pr.tm;

    let module = ast.root;
    let exp = ast.get_assign_exp(ast.get_main(module).unwrap());

    typecheck(&mut ast, module, &mut lt, &tm).unwrap();

    let rcs = find_single_redex_contraction_pair(&ast, Some(module), exp, &lt).unwrap();
    println!("{}", ast.rc_to_str(&rcs));
}

#[test]
fn myadd_test() {
    let program = "myadd::Int -> Int -> Int\nmyadd = \\x y.add x y\nmain::Int\nmain = myadd 2 3".to_string();

    let pr = Parser::from_string(program).parse_module(false).unwrap();
    let ast = pr.ast;
    let lt = pr.lt;

    let module = ast.root;
    let exp = ast.get_assign_exp(ast.get_main(module).unwrap());

    let rc = find_single_redex_contraction_pair(&ast, Some(module), exp, &lt).unwrap();

    assert_eq!("myadd 2 3 -> add 2 3", ast.rc_to_str(&rc));
}

#[test]
fn redexes_match() {
    let program = r#"
    data List a = Cons a (List a) | Nil

    main :: Bool
    main = match (Cons (5) Nil) {
      | Nil -> true
      | Cons _ _ -> false
    }"#;

    let pr = Parser::from_string(program.to_string()).parse_module(false).unwrap();

    let mut ast = pr.ast;
    let mut lt = pr.lt;
    let tm = pr.tm;

    let module = ast.root;
    let exp = ast.get_assign_exp(ast.get_main(module).unwrap());
    typecheck(&mut ast, module, &mut lt, &tm).unwrap();

    let rc = find_single_redex_contraction_pair(&ast, Some(module), exp, &lt).unwrap();
    assert_eq!("false", rc.to.to_string_sugar(rc.to.root, false));
}

#[test]
fn weird_halt_bug() {
    let program = r#"
    fac :: Int -> Int
    fac n = if (n <= 1) (1) (n * (fac (n - 1)))

    main :: Int
    main = fac 5"#;

    let pr = Parser::from_string(program.to_string()).parse_module(true).unwrap();
    let mut ast = pr.ast;
    let mut lt = pr.lt;
    let tm = pr.tm;
    let module = ast.root;

    let exp = ast.get_assign_exp(ast.get_main(module).unwrap());
    typecheck(&mut ast, module, &mut lt, &tm).unwrap();

    let rcs = find_all_redex_contraction_pairs(&ast, Some(module), exp, &lt);
    assert_eq!(rcs.len(), 2);

    ast.do_rc_subst(exp, &rcs[1]);
    let rcs = find_all_redex_contraction_pairs(&ast, Some(module), exp, &lt);
    assert_eq!(rcs.len(), 1);
}

#[test]
fn redex_messages() {
    let program = "main :: Int\nmain = add 5 1";
    let ast = Parser::from_string(program.to_string()).parse_module(false).unwrap().ast;
    let module = ast.root;
    let exp = ast.get_assign_exp(ast.get_main(module).unwrap());
    let rc = find_single_redex_contraction_pair(&ast, Some(module), exp, &LabelTable::new()).unwrap();
    assert_eq!(rc.msg_after, "Applied inbuilt add to 5 and 1");
    assert_eq!(rc.msg_before, "Apply inbuilt add to 5 and 1");
    assert_eq!(rc.to.to_string_sugar(rc.to.root, false), "6");
    assert_eq!(rc.from, exp);
}

#[test]
fn no_redex_in_literal() {
    let ast = Parser::from_string("5".to_string()).parse_tl_expression(false).unwrap().ast;
    assert!(find_single_redex_contraction_pair(&ast, None, ast.root, &LabelTable::new()).is_none());
    assert_eq!(find_all_redex_contraction_pairs(&ast, None, ast.root, &LabelTable::new()).len(), 0);
}

#[test]
fn division_by_zero_is_no_redex() {
    let ast = Parser::from_string("div 1 0".to_string()).parse_tl_expression(false).unwrap().ast;
    assert!(find_single_redex_contraction_pair(&ast, None, ast.root, &LabelTable::new()).is_none());
}

#[test]
fn label_substitution_message() {
    let program = "x :: Int\nx = 5\nmain :: Int\nmain = x";
    let ast = Parser::from_string(program.to_string()).parse_module(false).unwrap().ast;
    let module = ast.root;
    let exp = ast.get_assign_exp(ast.get_main(module).unwrap());
    let pr_lt = Parser::from_string(program.to_string()).parse_module(false).unwrap().lt;
    let rc = find_single_redex_contraction_pair(&ast, Some(module), exp, &pr_lt).unwrap();
    assert_eq!(rc.msg_after, "Substituted label x");
    assert_eq!(rc.to.to_string_sugar(rc.to.root, false), "5");
}

#[test]
fn basic_add_test() {
    let program = "main = add 5 1";
    let ast = Parser::from_string(program.to_string()).parse_module(false).unwrap().ast;

    let module = ast.root;
    let exp = ast.get_assign_exp(ast.get_main(module).unwrap());

    let rcs = find_all_redex_contraction_pairs(&ast, Some(module), exp, &LabelTable::new());
    assert!(rcs.len() == 1);

    let rc = &rcs[0];
    assert_eq!(
        format!("{} => {}", ast.to_string_sugar(rc.from, false), rc.to.to_string_sugar(rc.to.root, false)),
        "add 5 1 => 6"
    )
}
