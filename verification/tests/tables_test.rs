use sfl_lib::ast::{ASTNodeType, RCPair};
use sfl_lib::bound::BoundChecker;
use sfl_lib::compiler_types::{Primitive as CPrimitive, Type as CType, TypeConstructorArg, TypeTable};
use sfl_lib::inbuilts::{get_default_inbuilt_type_map, inbuilt_int_if};
use sfl_lib::labels::{Inbuilt, LabelTable};
use sfl_lib::parser::Parser;
use sfl_lib::redex::find_all_redex_contraction_pairs;
use sfl_lib::types::{Primitive, Type};
use sfl_lib::wasm_types::{Primitive as WPrimitive, Type as WType, TypeTable as WTypeTable};

#[test]
fn label_table_holds_the_inbuilts() {
    let lt = LabelTable::new();
    let add = lt.get(2, "add".to_string()).unwrap();
    assert_eq!(add.reduction_arity, 2);
    assert_eq!(add.inbuilt, Some(Inbuilt::IntAdd));
    assert_eq!(add.label_type.to_string(), "Int -> Int -> Int");
    let plus = lt.get(2, "+".to_string()).unwrap();
    assert_eq!(plus.inbuilt, Some(Inbuilt::IntAdd));
    let lt_op = lt.get(2, "<".to_string()).unwrap();
    assert_eq!(lt_op.inbuilt, Some(Inbuilt::IntLt));
    assert_eq!(lt_op.label_type.to_string(), "Int -> Int -> Bool");
    let iff = lt.get(1, "if".to_string()).unwrap();
    assert_eq!(iff.inbuilt, Some(Inbuilt::If));
    let c1 = lt.get(0, "const1".to_string()).unwrap();
    assert_eq!(c1.inbuilt, Some(Inbuilt::Const1));
    assert!(lt.get(1, "add".to_string()).is_none());
    assert!(lt.get(2, "nothing".to_string()).is_none());
    assert_eq!(lt.get_type("negf").unwrap().to_string(), "Float -> Float");
    assert!(lt.get_type("nothing").is_none());
}

#[test]
fn starting_bindings_are_the_inbuilt_names() {
    let names = LabelTable::get_starting_bindings_map();
    assert_eq!(names.len(), 33);
    for n in ["add", "+", "==", "if", "id", "const1", "const2", "neg", "negf", "gtf"] {
        assert!(names.contains(&n.to_string()), "{} is missing", n);
    }
}

#[test]
fn type_map_keeps_each_name_once() {
    let mut lt = LabelTable::new();
    lt.add("twice".to_string(), Type::int64());
    lt.add("twice".to_string(), Type::f(Type::int64(), Type::bool()));
    let tm = lt.get_type_map();
    let twice: Vec<&(String, Type)> = tm.iter().filter(|(n, _)| n == "twice").collect();
    assert_eq!(twice.len(), 1);
    // the label with the most arguments wins
    assert_eq!(twice[0].1.to_string(), "Int -> Bool");
    assert_eq!(tm.len(), 34);
}

#[test]
fn remove_takes_the_label_with_fewest_arguments() {
    let mut lt = LabelTable::new();
    lt.add("f".to_string(), Type::int64());
    lt.add("f".to_string(), Type::f(Type::int64(), Type::int64()));
    assert!(lt.remove(&"f".to_string()));
    assert!(lt.get(0, "f".to_string()).is_none());
    assert!(lt.get(1, "f".to_string()).is_some());
    assert!(lt.remove(&"f".to_string()));
    assert!(!lt.remove(&"f".to_string()));
    assert!(lt.get_by_name(&"f".to_string()).is_none());
}

#[test]
fn bound_checker_binds_and_unbinds() {
    let mut b = BoundChecker::new();
    assert!(b.is_bound("add"));
    assert!(b.is_bound("if"));
    assert!(!b.is_bound("x"));
    b.add_binding("x".to_string());
    assert!(b.is_bound("x"));
    b.remove_binding("x".to_string());
    assert!(!b.is_bound("x"));
    assert!(b.is_bound("add"));

    let mut other = BoundChecker::empty();
    assert!(!other.is_bound("add"));
    other.add_binding("y".to_string());
    let mut e = BoundChecker::empty();
    e.append(&other);
    assert!(e.is_bound("y"));
    assert!(!e.is_bound("add"));
}

#[test]
fn bind_then_unbind_scenario() {
    let mut b = BoundChecker::empty();
    b.add_binding("a".to_string());
    b.add_binding("z".to_string());
    b.remove_binding("z".to_string());
    assert!(b.is_bound("a"));
    assert!(!b.is_bound("z"));
}

#[test]
fn compiler_type_table_numbers_types() {
    let mut table = TypeTable::new();
    assert_eq!(table.len(), 8);
    assert_eq!(CType::id_from_primitive(CPrimitive::Invalid), 0);
    assert_eq!(CType::id_from_primitive(CPrimitive::Int64), 4);
    assert_eq!(CType::id_from_primitive(CPrimitive::F64), 7);
    let list = CType::new_non_primitive(
        "List",
        vec!["T"],
        vec![
            ("Nil", vec![]),
            ("Cons", vec![TypeConstructorArg::Generic(0), TypeConstructorArg::Recursive(vec![TypeConstructorArg::Generic(0)])]),
        ],
    );
    let id = table.add_type(list);
    assert_eq!(id, 8);
    assert_eq!(table.len(), 9);
    assert!(table.get_type(8).is_ok());
    assert!(table.get_type(9).is_err());
    assert!(table.get_type(3).is_ok());
}

#[test]
fn fill_generic_only_on_constructed_types() {
    let prim = CType::from_primitive(CPrimitive::Int32);
    assert!(prim.fill_generic(TypeConstructorArg::Generic(0)).is_err());
    let alias = CType::make_alias("Number", 4);
    assert!(alias.fill_generic(TypeConstructorArg::Generic(0)).is_err());
    let func = CType::new_function("inc", vec![4, 4]);
    assert!(func.fill_generic(TypeConstructorArg::Generic(0)).is_err());
    let unit = CType::new_non_primitive("Unit", vec![], vec![("()", vec![])]);
    assert!(unit.fill_generic(TypeConstructorArg::Generic(0)).is_ok());
}

#[test]
fn wasm_type_table_numbers_in_order() {
    let mut t = WTypeTable::new();
    assert!(t.get(0).is_none());
    t.insert(WType::Primitive(WPrimitive::Int));
    t.insert(WType::Function(0, 0));
    assert_eq!(t.get(0), Some(&WType::Primitive(WPrimitive::Int)));
    assert_eq!(t.get(1), Some(&WType::Function(0, 0)));
    assert!(t.get(2).is_none());
}

#[test]
fn default_inbuilt_types() {
    let m = get_default_inbuilt_type_map();
    assert_eq!(m.len(), 23);
    assert_eq!(m[0].0, "const");
    assert_eq!(m[0].1.to_string(), "Int -> Int -> Int");
    assert_eq!(m[2].0, "if");
    assert_eq!(m[2].1.to_string(), "Bool -> a -> a -> a");
    assert_eq!(m[16].0, "eqf");
    assert_eq!(m[16].1.to_string(), "Float -> Float -> Bool");
    assert_eq!(m[22].1.to_string(), "Float -> Float");
}

#[test]
fn int_if_selects_with_wildcards() {
    let pr = Parser::from_string("true".to_string()).parse_tl_expression(false).unwrap();
    let t = &pr.ast.vec[pr.ast.root];
    let r = inbuilt_int_if(t, vec![t]);
    assert_eq!(r.to_string_sugar(r.root, false), "\\x. \\_. x");
    let pr = Parser::from_string("false".to_string()).parse_tl_expression(false).unwrap();
    let f = &pr.ast.vec[pr.ast.root];
    let r = inbuilt_int_if(f, vec![f]);
    assert_eq!(r.to_string_sugar(r.root, false), "\\_. \\x. x");
}

#[test]
fn replace_redirects_every_reference() {
    let pr = Parser::from_string("add 1 2".to_string()).parse_tl_expression(false).unwrap();
    let mut ast = pr.ast;
    let root = ast.root;
    let f = ast.get_func(root);
    let two = ast.get_arg(root);
    let one = ast.get_arg(f);
    ast.replace(one, two);
    assert_eq!(ast.get_arg(f), two);
    assert_eq!(ast.to_string_sugar(root, false), "add 2 2");
    ast.replace(root, f);
    assert_eq!(ast.root, f);
}

#[test]
fn instances_of_a_variable() {
    let program = "f :: Int -> Int\nf x = add x (sub x 1)";
    let pr = Parser::from_string(program.to_string()).parse_module(false).unwrap();
    let ast = pr.ast;
    let module = ast.root;
    let abst = ast.get_assign_exp(ast.get_assign_to(module, "f".to_string()).unwrap());
    let body = ast.get_abstr_expr(abst);
    let found = ast.get_all_instances_of_var_in_exp(body, &"x".to_string());
    assert_eq!(found.len(), 2);
    for n in &found {
        assert_eq!(ast.vec[*n].t, ASTNodeType::Identifier);
        assert_eq!(ast.vec[*n].get_value(), "x");
    }
    assert!(ast.get_all_instances_of_var_in_exp(body, &"y".to_string()).is_empty());
    assert_eq!(ast.get_all_instances_of_var_in_exp(body, &"add".to_string()).len(), 1);
}

#[test]
fn laziest_and_identical_on_borrowed_pairs() {
    let program = "main :: Int\nmain = add (add 1 2) (add 1 2)";
    let pr = Parser::from_string(program.to_string()).parse_module(false).unwrap();
    let mut ast = pr.ast;
    let module = ast.root;
    let exp = ast.get_assign_exp(ast.get_main(module).unwrap());
    let rcs = find_all_redex_contraction_pairs(&ast, Some(module), exp, &LabelTable::new());
    assert_eq!(rcs.len(), 2);
    let refs: Vec<&RCPair> = rcs.iter().collect();
    let lazy = ast.get_laziest_rc_borrowed(exp, &refs).unwrap();
    let lazy_owned = ast.get_laziest_rc(exp, &rcs).unwrap();
    assert_eq!(lazy.from, lazy_owned.from);
    assert_eq!(ast.rc_to_str(&lazy), "add 1 2 -> 3");
    assert!(ast.get_laziest_rc_borrowed(exp, &Vec::new()).is_none());
    ast.do_rc_subst_and_identical_rcs_borrowed(exp, &lazy, &refs);
    assert_eq!(ast.to_string_sugar(exp, false), "add 3 3");
}

#[test]
fn primitive_types_print() {
    assert_eq!(Type::Primitive(Primitive::Bool).to_string(), "Bool");
}
