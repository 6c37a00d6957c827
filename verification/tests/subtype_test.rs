use sfl_lib::checker::subtype;
use sfl_lib::context::{Context, ContextItem};
use sfl_lib::parser::TypeMap;
use sfl_lib::types::Type;

fn empty_context() -> Context {
    Context { vec: vec![], next_exid: 0, next_placeholder_assignvar_i: 0 }
}

fn err_of(r: Result<Context, String>) -> String {
    match r {
        Ok(_) => panic!("subtype succeeded"),
        Err(e) => e,
    }
}

fn tm() -> TypeMap {
    TypeMap { types: vec![] }
}

#[test]
fn subtype_reflexive_through_aliases() {
    let inner = Type::Function(Box::new(Type::int64()), Box::new(Type::TypeVariable("a".to_string())));
    let t = Type::Alias(
        "F".to_string(),
        Box::new(Type::Product(Box::new(inner), Box::new(Type::Alias("I".to_string(), Box::new(Type::int64()))))),
    );
    let c = subtype(empty_context(), &t, &t, &tm()).unwrap();
    assert_eq!(c.vec.len(), 0);
    assert_eq!(c.next_exid, 0);
}

#[test]
fn subtype_int_is_not_float() {
    assert!(subtype(empty_context(), &Type::int64(), &Type::float64(), &tm()).is_err());
}

#[test]
fn subtype_occurs_check() {
    let c = Context { vec: vec![ContextItem::Existential(1, None)], next_exid: 1, next_placeholder_assignvar_i: 0 };
    let b = Type::Function(Box::new(Type::Existential(1)), Box::new(Type::int64()));
    assert!(subtype(c, &Type::Existential(1), &b, &tm()).is_err());
}

#[test]
fn subtype_product_message_names_the_other_type_first() {
    let p = Type::Product(Box::new(Type::int64()), Box::new(Type::int64()));
    let e = err_of(subtype(empty_context(), &p, &Type::int64(), &tm()));
    assert_eq!(e, format!("Type Int is not a subtype of product {}", p.to_string()));
    let e2 = err_of(subtype(empty_context(), &Type::int64(), &p, &tm()));
    assert_eq!(e2, format!("Type Int is not a subtype of product {}", p.to_string()));
}

#[test]
fn subtype_unit_against_primitive_fails_generically() {
    let e = err_of(subtype(empty_context(), &Type::Unit, &Type::int64(), &tm()));
    assert_eq!(e, "Subtype failiure");
}

#[test]
fn subtype_primitive_message() {
    let e = err_of(subtype(empty_context(), &Type::int64(), &Type::float64(), &tm()));
    assert_eq!(e, "Int is not a subtype of Float");
}

#[test]
fn subtype_occurs_check_through_alias() {
    let c = Context { vec: vec![ContextItem::Existential(1, None)], next_exid: 1, next_placeholder_assignvar_i: 0 };
    let b = Type::Alias(
        "T".to_string(),
        Box::new(Type::Function(Box::new(Type::Existential(1)), Box::new(Type::int64()))),
    );
    assert!(subtype(c, &Type::Existential(1), &b, &tm()).is_err());
    let c2 = Context { vec: vec![ContextItem::Existential(1, None)], next_exid: 1, next_placeholder_assignvar_i: 0 };
    let same = Type::Alias("T".to_string(), Box::new(Type::Existential(1)));
    assert!(subtype(c2, &Type::Existential(1), &same, &tm()).is_ok());
}
