use sfl_lib::ast::AST;
use sfl_lib::inbuilts::{inbuilt_if, inbuilt_int_add, inbuilt_int_eq, inbuilt_int_neg};
use sfl_lib::labels::LabelTable;
use sfl_lib::token::{Token, TokenType};
use sfl_lib::types::{Primitive, Type};

#[test]
fn test_basic_int_arith() {
    let mut ast = AST::new();
    let labels = LabelTable::new();
    let add = labels.get(2, "add".to_string()).unwrap();
    let sub = labels.get(2, "sub".to_string()).unwrap();
    let mul = labels.get(2, "mul".to_string()).unwrap();
    let div = labels.get(2, "div".to_string()).unwrap();

    for _ in 0..1000 {
        // Generate random numbers, (16 bit to avoid overflow)
        let a_int = rand::random::<i16>();
        let b_int = rand::random::<i16>();

        let a = Token { tt: TokenType::IntLit, value: format!("{}", a_int) };
        let b = Token { tt: TokenType::IntLit, value: format!("{}", b_int) };

        let a_int = a_int as i64;
        let b_int = b_int as i64;

        let a = ast.add_lit(a, 0, 0);
        let b = ast.add_lit(b, 0, 0);

        let mut call_ast = AST::new();
        call_ast.add_id(Token { tt: TokenType::Id, value: "_".to_string() }, 0, 0);
        let call = call_ast.get(0);

        let c_add = add.call_inbuilt(&call, vec![ast.get(b), ast.get(a)]);
        let c_sub = sub.call_inbuilt(&call, vec![ast.get(b), ast.get(a)]);
        let c_mul = mul.call_inbuilt(&call, vec![ast.get(b), ast.get(a)]);
        let c_div = div.call_inbuilt(&call, vec![ast.get(b), ast.get(a)]);

        let _ = matches!(c_add.get(0).get_lit_type(), Ok(Type::Primitive(Primitive::Int64)));
        let _ = matches!(c_sub.get(0).get_lit_type(), Ok(Type::Primitive(Primitive::Int64)));
        let _ = matches!(c_mul.get(0).get_lit_type(), Ok(Type::Primitive(Primitive::Int64)));
        let _ = matches!(c_div.get(0).get_lit_type(), Ok(Type::Primitive(Primitive::Int64)));

        assert_eq!(c_add.get(0).get_value().parse::<i64>().unwrap(), a_int + b_int);
        assert_eq!(c_sub.get(0).get_value().parse::<i64>().unwrap(), a_int - b_int);
        assert_eq!(c_mul.get(0).get_value().parse::<i64>().unwrap(), a_int * b_int);
        assert_eq!(c_div.get(0).get_value().parse::<i64>().unwrap(), a_int / b_int);
    }
}

fn int_node(ast: &mut AST, v: &str) -> usize {
    ast.add_lit(Token { tt: TokenType::IntLit, value: v.to_string() }, 3, 4)
}

#[test]
fn inbuilt_exact_values() {
    let mut ast = AST::new();
    let a = int_node(&mut ast, "7");
    let b = int_node(&mut ast, "-3");
    let r = inbuilt_int_add(ast.get(a), vec![ast.get(b), ast.get(a)]);
    assert_eq!(r.get(0).get_value(), "4");
    assert_eq!(r.get(0).line, 3);
    let r = inbuilt_int_eq(ast.get(a), vec![ast.get(a), ast.get(a)]);
    assert_eq!(r.get(0).get_value(), "true");
    let r = inbuilt_int_neg(ast.get(a), vec![ast.get(b)]);
    assert_eq!(r.get(0).get_value(), "3");
    let t = ast.add_lit(Token { tt: TokenType::BoolLit, value: "true".to_string() }, 0, 0);
    let sel = inbuilt_if(ast.get(t), vec![ast.get(t)]);
    assert_eq!(sel.to_string_sugar(sel.root, false), "\\x. \\y. x");
}

#[test]
fn inbuilt_overflow_is_undefined() {
    let mut ast = AST::new();
    let a = int_node(&mut ast, "9223372036854775807");
    let b = int_node(&mut ast, "1");
    let labels = LabelTable::new();
    let add = labels.get(2, "add".to_string()).unwrap();
    assert!(add.try_call_inbuilt(ast.get(a), &vec![ast.get(b), ast.get(a)]).is_none());
    let div = labels.get(2, "div".to_string()).unwrap();
    let z = int_node(&mut ast, "0");
    assert!(div.try_call_inbuilt(ast.get(a), &vec![ast.get(z), ast.get(a)]).is_none());
}
