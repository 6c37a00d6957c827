use sfl_lib::types::{Primitive, Type};

#[test]
fn type_to_string() {
    let t1 = Type::Primitive(Primitive::Int64);
    assert_eq!(t1.to_string(), "Int");

    let t2 = Type::Primitive(Primitive::Float64);
    assert_eq!(t2.to_string(), "Float");

    let t3 = Type::Function(
        Box::new(Type::Primitive(Primitive::Int64)),
        Box::new(Type::Primitive(Primitive::Float64)),
    );
    assert_eq!(t3.to_string(), "Int -> Float");

    let t4 = Type::Function(
        Box::new(Type::Primitive(Primitive::Int64)),
        Box::new(Type::Function(
            Box::new(Type::Primitive(Primitive::Int64)),
            Box::new(Type::Primitive(Primitive::Float64)),
        )),
    );
    assert_eq!(t4.to_string(), "Int -> Int -> Float");

    let t5 = Type::Function(
        Box::new(Type::Function(
            Box::new(Type::Primitive(Primitive::Int64)),
            Box::new(Type::Primitive(Primitive::Int64)),
        )),
        Box::new(Type::Primitive(Primitive::Float64)),
    );
    assert_eq!(t5.to_string(), "(Int -> Int) -> Float");

    let t6 = Type::Existential(0);
    assert_eq!(t6.to_string(), "Ea");

    let t6 = Type::Existential(26);
    assert_eq!(t6.to_string(), "Eaa");

    let t6 = Type::Existential(27);
    assert_eq!(t6.to_string(), "Eab");

    let t6 = Type::Existential(28);
    assert_eq!(t6.to_string(), "Eac");

    let t6 = Type::Existential(26 * 2);
    assert_eq!(t6.to_string(), "Eba");

    let t = Type::Union("List".to_string(), vec![Type::Primitive(Primitive::Int64)]);
    assert_eq!(t.to_string(), "List Int");

    let t = Type::Union("Either".to_string(), vec![Type::int64(), Type::float64()]);
    assert_eq!(t.to_string(), "Either Int Float");
}

#[test]
fn type_fa_and_foralls() {
    let t = Type::fa(vec!["a".to_string(), "b".to_string()], Type::f(Type::tv("a".to_string()), Type::tv("b".to_string())));
    assert_eq!(t.to_string(), "∀a. ∀b. a -> b");
    let vs = t.get_foralls();
    assert_eq!(vs, vec!["a".to_string(), "b".to_string()]);
    assert_eq!(t.strip_foralls().to_string(), "a -> b");
    assert_eq!(t.get_arity(), 1);
}

#[test]
fn type_substitute_and_capture() {
    let t = Type::f(Type::tv("a".to_string()), Type::tv("b".to_string()));
    let s = t.substitute_type_variable(&"a".to_string(), &Type::int64()).unwrap();
    assert_eq!(s.to_string(), "Int -> b");
    let bound = Type::fa(vec!["a".to_string()], Type::tv("a".to_string()));
    assert!(bound.substitute_type_variable(&"a".to_string(), &Type::int64()).is_err());
    assert_eq!(bound.type_app(&Type::bool()).unwrap().to_string(), "Bool");
    assert!(Type::int64().type_app(&Type::bool()).is_err());
}

#[test]
fn type_forall_ify() {
    let t = Type::f(Type::Existential(3), Type::f(Type::tv("a".to_string()), Type::Existential(3)));
    assert_eq!(t.forall_ify().to_string(), "∀b. b -> a -> b");
    assert!(Type::pr(Type::int64(), Type::bool()).is_monotype());
    assert!(!Type::fa(vec!["a".to_string()], Type::tv("a".to_string())).is_monotype());
}
