//! Types of the compiler: named types with generic parameters and constructors, kept in
//! a table that numbers them.
use vstd::prelude::*;

use crate::text::lit;

verus! {

#[derive(Clone, Copy, Debug, PartialEq, Eq, Structural)]
pub enum Primitive {
    Invalid,
    Int8,
    Int16,
    Int32,
    Int64,
    F16,
    F32,
    F64,
}

/// An argument of a type constructor.
#[derive(Debug)]
pub enum TypeConstructorArg {
    /// Another type, by its number, applied to arguments.
    Existing(u64, Vec<TypeConstructorArg>),
    /// The type being defined, applied to arguments.
    Recursive(Vec<TypeConstructorArg>),
    /// The generic parameter with this index.
    Generic(u64),
}

/// The value of a constructor argument.
pub enum ArgV {
    Existing(u64, Seq<ArgV>),
    Recursive(Seq<ArgV>),
    Generic(u64),
}

pub open spec fn arg_view(a: TypeConstructorArg) -> ArgV
    decreases a,
{
    match a {
        TypeConstructorArg::Existing(id, v) => ArgV::Existing(
            id,
            Seq::new(v@.len(), |i: int| if 0 <= i < v@.len() { arg_view(v@[i]) } else { ArgV::Generic(0) }),
        ),
        TypeConstructorArg::Recursive(v) => ArgV::Recursive(
            Seq::new(v@.len(), |i: int| if 0 <= i < v@.len() { arg_view(v@[i]) } else { ArgV::Generic(0) }),
        ),
        TypeConstructorArg::Generic(n) => ArgV::Generic(n),
    }
}

impl View for TypeConstructorArg {
    type V = ArgV;

    open spec fn view(&self) -> ArgV {
        arg_view(*self)
    }
}

/// The values of a sequence of constructor arguments.
pub open spec fn arg_views(v: Seq<TypeConstructorArg>) -> Seq<ArgV> {
    v.map_values(|a: TypeConstructorArg| a@)
}

pub proof fn lemma_arg_view(a: TypeConstructorArg)
    ensures
        a matches TypeConstructorArg::Existing(id, v) ==> a@ == ArgV::Existing(id, arg_views(v@)),
        a matches TypeConstructorArg::Recursive(v) ==> a@ == ArgV::Recursive(arg_views(v@)),
{
    match a {
        TypeConstructorArg::Existing(id, v) => {
            match arg_view(a) {
                ArgV::Existing(_, sq) => {
                    assert(sq =~= arg_views(v@));
                },
                _ => {},
            }
        },
        TypeConstructorArg::Recursive(v) => {
            match arg_view(a) {
                ArgV::Recursive(sq) => {
                    assert(sq =~= arg_views(v@));
                },
                _ => {},
            }
        },
        _ => {},
    }
}

impl TypeConstructorArg {
    /// A copy of the argument.
    #[verifier::loop_isolation(false)]
    pub fn deep_clone(&self) -> (r: TypeConstructorArg)
        ensures
            r@ == self@,
        decreases self,
    {
        match self {
            TypeConstructorArg::Generic(n) => TypeConstructorArg::Generic(*n),
            TypeConstructorArg::Existing(id, v) => {
                let out = clone_args(v);
                let r = TypeConstructorArg::Existing(*id, out);
                proof {
                    lemma_arg_view(*self);
                    lemma_arg_view(r);
                }
                r
            },
            TypeConstructorArg::Recursive(v) => {
                let out = clone_args(v);
                let r = TypeConstructorArg::Recursive(out);
                proof {
                    lemma_arg_view(*self);
                    lemma_arg_view(r);
                }
                r
            },
        }
    }
}

/// A copy of a sequence of constructor arguments.
pub fn clone_args(v: &Vec<TypeConstructorArg>) -> (r: Vec<TypeConstructorArg>)
    ensures
        arg_views(r@) == arg_views(v@),
    decreases v,
{
    let mut out: Vec<TypeConstructorArg> = Vec::new();
    let mut i: usize = 0;
    while i < v.len()
        invariant
            i <= v@.len(),
            out@.len() == i,
            forall|j: int| 0 <= j < i ==> out@[j]@ == v@[j]@,
        decreases v@.len() - i,
    {
        proof {
            vstd::std_specs::vec::axiom_vec_index_decreases(*v, i as int);
        }
        out.push(v[i].deep_clone());
        i = i + 1;
    }
    assert(arg_views(out@) =~= arg_views(v@));
    out
}

/// What a type is: a primitive, another name for a numbered type, a type with named
/// constructors, or a function by the numbers of its types.
#[derive(Debug)]
pub enum TypeValue {
    Primitive(Primitive),
    Alias(u64),
    NotPrimitive(Vec<(String, Vec<TypeConstructorArg>)>),
    Function(Vec<u64>),
}

pub enum TypeValueV {
    Primitive(Primitive),
    Alias(u64),
    /// The constructors by name, each with its arguments.
    NotPrimitive(Map<Seq<char>, Seq<ArgV>>),
    Function(Seq<u64>),
}

/// The constructors of a list of named argument lists; a later name replaces an earlier one.
pub open spec fn constructor_map(cs: Seq<(String, Vec<TypeConstructorArg>)>) -> Map<Seq<char>, Seq<ArgV>>
    decreases cs.len(),
{
    if cs.len() == 0 {
        Map::empty()
    } else {
        constructor_map(cs.drop_last()).insert(cs.last().0@, arg_views(cs.last().1@))
    }
}

/// `constructor_map` of a list given with names as string slices.
pub open spec fn constructor_map_str(cs: Seq<(&str, Vec<TypeConstructorArg>)>) -> Map<Seq<char>, Seq<ArgV>>
    decreases cs.len(),
{
    if cs.len() == 0 {
        Map::empty()
    } else {
        constructor_map_str(cs.drop_last()).insert(cs.last().0@, arg_views(cs.last().1@))
    }
}

pub open spec fn type_value_view(v: TypeValue) -> TypeValueV {
    match v {
        TypeValue::Primitive(p) => TypeValueV::Primitive(p),
        TypeValue::Alias(id) => TypeValueV::Alias(id),
        TypeValue::NotPrimitive(cs) => TypeValueV::NotPrimitive(constructor_map(cs@)),
        TypeValue::Function(sig) => TypeValueV::Function(sig@),
    }
}

/// A named type with its generic parameters.
///
/// For example `List a = Cons a (List a) | Nil` has the name `List`, the parameter `a`
/// and the constructors `Cons` with `[Generic(0), Recursive([Generic(0)])]` and `Nil`
/// with none.
#[derive(Debug)]
pub struct Type {
    name: String,
    generic_params: Vec<String>,
    value: TypeValue,
}

pub struct TypeSpec {
    pub name: Seq<char>,
    pub generic_params: Seq<Seq<char>>,
    pub value: TypeValueV,
}

impl View for Type {
    type V = TypeSpec;

    closed spec fn view(&self) -> TypeSpec {
        TypeSpec {
            name: self.name@,
            generic_params: self.generic_params@.map_values(|s: String| s@),
            value: type_value_view(self.value),
        }
    }
}

/// The character sequences of a list of string slices.
pub open spec fn str_names(v: Seq<&str>) -> Seq<Seq<char>> {
    v.map_values(|s: &str| s@)
}

/// The number of a primitive type in a new table.
pub open spec fn primitive_id(p: Primitive) -> u64 {
    match p {
        Primitive::Invalid => 0,
        Primitive::Int8 => 1,
        Primitive::Int16 => 2,
        Primitive::Int32 => 3,
        Primitive::Int64 => 4,
        Primitive::F16 => 5,
        Primitive::F32 => 6,
        Primitive::F64 => 7,
    }
}

/// The primitive types in the order a new table numbers them.
pub open spec fn primitive_order() -> Seq<Primitive> {
    seq![
        Primitive::Invalid,
        Primitive::Int8,
        Primitive::Int16,
        Primitive::Int32,
        Primitive::Int64,
        Primitive::F16,
        Primitive::F32,
        Primitive::F64,
    ]
}

/// The value of a primitive type as a new table holds it: no name, no parameters.
pub open spec fn primitive_spec(p: Primitive) -> TypeSpec {
    TypeSpec { name: Seq::empty(), generic_params: Seq::empty(), value: TypeValueV::Primitive(p) }
}

impl Type {
    /// A type with named constructors.
    pub fn new_non_primitive(name: &str, generic_params: Vec<&str>, constructors: Vec<(&str, Vec<TypeConstructorArg>)>) -> (r: Self)
        ensures
            r@ == (TypeSpec {
                name: name@,
                generic_params: str_names(generic_params@),
                value: TypeValueV::NotPrimitive(constructor_map_str(constructors@)),
            }),
    {
        let mut params: Vec<String> = Vec::new();
        let mut i: usize = 0;
        while i < generic_params.len()
            invariant
                i <= generic_params@.len(),
                params@.len() == i,
                forall|j: int| 0 <= j < i ==> params@[j]@ == generic_params@[j]@,
            decreases generic_params@.len() - i,
        {
            params.push(lit(generic_params[i]));
            i = i + 1;
        }
        let mut cs: Vec<(String, Vec<TypeConstructorArg>)> = Vec::new();
        let mut k: usize = 0;
        while k < constructors.len()
            invariant
                k <= constructors@.len(),
                cs@.len() == k,
                forall|j: int| 0 <= j < k ==> cs@[j].0@ == constructors@[j].0@ && arg_views(cs@[j].1@) == arg_views(constructors@[j].1@),
            decreases constructors@.len() - k,
        {
            cs.push((lit(constructors[k].0), clone_args(&constructors[k].1)));
            k = k + 1;
        }
        proof { lemma_constructor_map_str(cs@, constructors@); }
        proof {
            assert(params@.map_values(|s: String| s@) =~= str_names(generic_params@));
        }
        Type { name: lit(name), generic_params: params, value: TypeValue::NotPrimitive(cs) }
    }

    /// A named function type, by the numbers of its types.
    pub fn new_function(name: &str, signature: Vec<u64>) -> (r: Self)
        ensures
            r@ == (TypeSpec { name: name@, generic_params: Seq::empty(), value: TypeValueV::Function(signature@) }),
    {
        let r = Type { name: lit(name), generic_params: Vec::new(), value: TypeValue::Function(signature) };
        assert(r.generic_params@.map_values(|s: String| s@) =~= Seq::<Seq<char>>::empty());
        r
    }

    /// A primitive type, with no name.
    pub fn from_primitive(primitive: Primitive) -> (r: Self)
        ensures
            r@ == primitive_spec(primitive),
    {
        let r = Type { name: String::new(), generic_params: Vec::new(), value: TypeValue::Primitive(primitive) };
        assert(r.generic_params@.map_values(|s: String| s@) =~= Seq::<Seq<char>>::empty());
        r
    }

    /// Another name for the type numbered `type_id`.
    pub fn make_alias(name: &str, type_id: u64) -> (r: Self)
        ensures
            r@ == (TypeSpec { name: name@, generic_params: Seq::empty(), value: TypeValueV::Alias(type_id) }),
    {
        let r = Type { name: lit(name), generic_params: Vec::new(), value: TypeValue::Alias(type_id) };
        assert(r.generic_params@.map_values(|s: String| s@) =~= Seq::<Seq<char>>::empty());
        r
    }

    /// The number a new table gives a primitive type.
    pub fn id_from_primitive(primitive: Primitive) -> (r: u64)
        ensures
            r == primitive_id(primitive),
    {
        match primitive {
            Primitive::Invalid => 0,
            Primitive::Int8 => 1,
            Primitive::Int16 => 2,
            Primitive::Int32 => 3,
            Primitive::Int64 => 4,
            Primitive::F16 => 5,
            Primitive::F32 => 6,
            Primitive::F64 => 7,
        }
    }

    /// A copy of the type.
    pub fn copy(&self) -> (r: Self)
        ensures
            r@ == self@,
    {
        let mut params: Vec<String> = Vec::new();
        let mut i: usize = 0;
        while i < self.generic_params.len()
            invariant
                i <= self.generic_params@.len(),
                params@.len() == i,
                forall|j: int| 0 <= j < i ==> params@[j]@ == self.generic_params@[j]@,
            decreases self.generic_params@.len() - i,
        {
            params.push(self.generic_params[i].clone());
            i = i + 1;
        }
        let value = match &self.value {
            TypeValue::Primitive(p) => TypeValue::Primitive(*p),
            TypeValue::Alias(id) => TypeValue::Alias(*id),
            TypeValue::Function(sig) => TypeValue::Function(sig.clone()),
            TypeValue::NotPrimitive(cs) => {
                let mut out: Vec<(String, Vec<TypeConstructorArg>)> = Vec::new();
                let mut k: usize = 0;
                while k < cs.len()
                    invariant
                        k <= cs@.len(),
                        out@.len() == k,
                        forall|j: int| 0 <= j < k ==> out@[j].0@ == cs@[j].0@ && arg_views(out@[j].1@) == arg_views(cs@[j].1@),
                    decreases cs@.len() - k,
                {
                    out.push((cs[k].0.clone(), clone_args(&cs[k].1)));
                    k = k + 1;
                }
                proof { lemma_constructor_map_same(out@, cs@); }
                TypeValue::NotPrimitive(out)
            },
        };
        let r = Type { name: self.name.clone(), generic_params: params, value };
        assert(r.generic_params@.map_values(|s: String| s@) =~= self.generic_params@.map_values(|s: String| s@));
        r
    }

    /// The type itself where it has constructors; nothing for another kind of type.
    pub fn fill_generic(&self, type_constructor_arg: TypeConstructorArg) -> (r: Result<Type, ()>)
        ensures
            r is Ok <==> self@.value is NotPrimitive,
            r matches Ok(t) ==> t@ == self@,
    {
        match &self.value {
            TypeValue::NotPrimitive(_) => Ok(self.copy()),
            _ => Err(()),
        }
    }
}

/// A list with names as strings and one with the same names as string slices, with the
/// same argument values, give the same constructors.
pub proof fn lemma_constructor_map_str(a: Seq<(String, Vec<TypeConstructorArg>)>, b: Seq<(&str, Vec<TypeConstructorArg>)>)
    requires
        a.len() == b.len(),
        forall|j: int| 0 <= j < a.len() ==> a[j].0@ == b[j].0@ && arg_views(a[j].1@) == arg_views(b[j].1@),
    ensures
        constructor_map(a) == constructor_map_str(b),
    decreases a.len(),
{
    if a.len() > 0 {
        lemma_constructor_map_str(a.drop_last(), b.drop_last());
    }
}

/// Two lists with the same names and argument values give the same constructors.
pub proof fn lemma_constructor_map_same(a: Seq<(String, Vec<TypeConstructorArg>)>, b: Seq<(String, Vec<TypeConstructorArg>)>)
    requires
        a.len() == b.len(),
        forall|j: int| 0 <= j < a.len() ==> a[j].0@ == b[j].0@ && arg_views(a[j].1@) == arg_views(b[j].1@),
    ensures
        constructor_map(a) == constructor_map(b),
    decreases a.len(),
{
    if a.len() > 0 {
        lemma_constructor_map_same(a.drop_last(), b.drop_last());
    }
}

/// The types, numbered by their position.
pub struct TypeTable {
    types: Vec<Type>,
}

impl View for TypeTable {
    type V = Seq<TypeSpec>;

    closed spec fn view(&self) -> Seq<TypeSpec> {
        self.types@.map_values(|t: Type| t@)
    }
}

impl TypeTable {
    /// A table of the primitive types, numbered as `primitive_id` says.
    pub fn new() -> (r: Self)
        ensures
            r@ == primitive_order().map_values(|p: Primitive| primitive_spec(p)),
    {
        let mut man = TypeTable { types: Vec::new() };
        man.add_type(Type::from_primitive(Primitive::Invalid));
        man.add_type(Type::from_primitive(Primitive::Int8));
        man.add_type(Type::from_primitive(Primitive::Int16));
        man.add_type(Type::from_primitive(Primitive::Int32));
        man.add_type(Type::from_primitive(Primitive::Int64));
        man.add_type(Type::from_primitive(Primitive::F16));
        man.add_type(Type::from_primitive(Primitive::F32));
        man.add_type(Type::from_primitive(Primitive::F64));
        assert(man@ =~= primitive_order().map_values(|p: Primitive| primitive_spec(p)));
        man
    }

    /// The number of types held.
    pub fn len(&self) -> (r: usize)
        ensures
            r == self@.len(),
    {
        self.types.len()
    }

    /// Adds a type; its number is the count of types held before.
    pub fn add_type(&mut self, type_: Type) -> (r: u64)
        requires
            old(self)@.len() < usize::MAX,
        ensures
            r == old(self)@.len(),
            final(self)@ == old(self)@.push(type_@),
    {
        let id = self.types.len() as u64;
        self.types.push(type_);
        assert(self@ =~= old(self)@.push(type_@));
        id
    }

    /// A copy of the type numbered `id`; an error where there is none.
    pub fn get_type(&self, id: u64) -> (r: Result<Type, ()>)
        ensures
            r is Ok <==> id < self@.len(),
            r matches Ok(t) ==> t@ == self@[id as int],
    {
        if (self.types.len() as u64) <= id {
            return Err(());
        }
        Ok(self.types[id as usize].copy())
    }
}

/// Adding a type to a table of `n` types (`TypeTable::add_type`, which numbers it `n`)
/// makes it the type numbered `n`, keeps every type numbered below `n`, and makes the
/// numbers found by `TypeTable::get_type` exactly those below `n + 1`.
pub proof fn law_add_type_then_get(before: Seq<TypeSpec>, after: Seq<TypeSpec>, t: TypeSpec, id: int)
    requires
        after == before.push(t),
    ensures
        after.len() == before.len() + 1,
        after[before.len() as int] == t,
        forall|i: int| 0 <= i < before.len() ==> #[trigger] after[i] == before[i],
        (0 <= id < after.len()) <==> (0 <= id <= before.len()),
{
}

} // verus!
