//! Types of the language and the operations on them.
use vstd::prelude::*;

use crate::text::{lit, push_char, push_str, str_eq};

verus! {

#[derive(Clone, Copy, Debug, PartialEq, Eq, Structural)]
pub enum Primitive {
    Invalid,
    Int64,
    Float64,
    Bool,
    Char,
}

/// A type of the language. Names are strings; a union carries its arguments.
#[derive(Debug)]
pub enum Type {
    Unit,
    Primitive(Primitive),
    Function(Box<Type>, Box<Type>),
    TypeVariable(String),
    Existential(usize),
    Forall(String, Box<Type>),
    Product(Box<Type>, Box<Type>),
    Union(String, Vec<Type>),
    Alias(String, Box<Type>),
}

/// The mathematical value of a `Type`: names are character sequences.
pub enum TypeV {
    Unit,
    Primitive(Primitive),
    Function(Box<TypeV>, Box<TypeV>),
    TypeVariable(Seq<char>),
    Existential(nat),
    Forall(Seq<char>, Box<TypeV>),
    Product(Box<TypeV>, Box<TypeV>),
    Union(Seq<char>, Seq<TypeV>),
    Alias(Seq<char>, Box<TypeV>),
}

/// An error found while type checking, with the position it refers to.
#[derive(Clone, Debug)]
pub struct TypeError {
    pub e: String,
    pub line: usize,
    pub col: usize,
}

pub open spec fn type_view(t: Type) -> TypeV
    decreases t,
{
    match t {
        Type::Unit => TypeV::Unit,
        Type::Primitive(p) => TypeV::Primitive(p),
        Type::Function(a, b) => TypeV::Function(Box::new(type_view(*a)), Box::new(type_view(*b))),
        Type::TypeVariable(n) => TypeV::TypeVariable(n@),
        Type::Existential(e) => TypeV::Existential(e as nat),
        Type::Forall(n, a) => TypeV::Forall(n@, Box::new(type_view(*a))),
        Type::Product(a, b) => TypeV::Product(Box::new(type_view(*a)), Box::new(type_view(*b))),
        Type::Union(n, v) => TypeV::Union(
            n@,
            Seq::new(
                v@.len(),
                |i: int|
                    if 0 <= i < v@.len() {
                        type_view(v@[i])
                    } else {
                        TypeV::Unit
                    },
            ),
        ),
        Type::Alias(n, a) => TypeV::Alias(n@, Box::new(type_view(*a))),
    }
}

impl View for Type {
    type V = TypeV;

    open spec fn view(&self) -> TypeV {
        type_view(*self)
    }
}

/// The values of a sequence of types.
pub open spec fn views(v: Seq<Type>) -> Seq<TypeV> {
    v.map_values(|t: Type| t@)
}

/// The character sequences of a sequence of strings.
pub open spec fn names(v: Seq<String>) -> Seq<Seq<char>> {
    v.map_values(|s: String| s@)
}

/// The value of a union is its name with the values of its arguments.
pub proof fn lemma_union_view(t: Type)
    ensures
        t matches Type::Union(n, v) ==> t@ == TypeV::Union(n@, views(v@)),
{
    match t {
        Type::Union(n, v) => {
            match type_view(t) {
                TypeV::Union(m, sq) => {
                    assert(sq =~= views(v@));
                },
                _ => {},
            }
        },
        _ => {},
    }
}

/// Whether the existential `ex` occurs in `t`.
pub open spec fn tv_contains_existential(t: TypeV, ex: nat) -> bool
    decreases t, 0nat,
{
    match t {
        TypeV::Function(a, b) => tv_contains_existential(*a, ex) || tv_contains_existential(*b, ex),
        TypeV::Product(a, b) => tv_contains_existential(*a, ex) || tv_contains_existential(*b, ex),
        TypeV::Existential(e) => e == ex,
        TypeV::Forall(_, a) => tv_contains_existential(*a, ex),
        TypeV::Union(_, s) => seq_contains_existential(s, ex, s.len()),
        TypeV::Alias(_, a) => tv_contains_existential(*a, ex),
        _ => false,
    }
}

pub proof fn lemma_seq_contains_existential_mono(s: Seq<TypeV>, ex: nat, k1: nat, k2: nat)
    requires
        k1 <= k2 <= s.len(),
        seq_contains_existential(s, ex, k1),
    ensures
        seq_contains_existential(s, ex, k2),
    decreases k2 - k1,
{
    if k1 < k2 {
        lemma_seq_contains_existential_mono(s, ex, k1, (k2 - 1) as nat);
    }
}

pub proof fn lemma_seq_binds_mono(s: Seq<TypeV>, name: Seq<char>, k1: nat, k2: nat)
    requires
        k1 <= k2 <= s.len(),
        seq_binds(s, name, k1),
    ensures
        seq_binds(s, name, k2),
    decreases k2 - k1,
{
    if k1 < k2 {
        lemma_seq_binds_mono(s, name, k1, (k2 - 1) as nat);
    }
}

pub proof fn lemma_seq_is_monotype_mono(s: Seq<TypeV>, k1: nat, k2: nat)
    requires
        k1 <= k2 <= s.len(),
        !seq_is_monotype(s, k1),
    ensures
        !seq_is_monotype(s, k2),
    decreases k2 - k1,
{
    if k1 < k2 {
        lemma_seq_is_monotype_mono(s, k1, (k2 - 1) as nat);
    }
}

/// Whether `ex` occurs in one of the first `k` types of `s`.
pub open spec fn seq_contains_existential(s: Seq<TypeV>, ex: nat, k: nat) -> bool
    decreases s, k,
{
    if k == 0 || k > s.len() {
        false
    } else {
        seq_contains_existential(s, ex, (k - 1) as nat) || tv_contains_existential(s[k - 1], ex)
    }
}

/// Whether some `∀` inside `t` binds `name`.
pub open spec fn tv_binds(t: TypeV, name: Seq<char>) -> bool
    decreases t, 0nat,
{
    match t {
        TypeV::Function(a, b) => tv_binds(*a, name) || tv_binds(*b, name),
        TypeV::Product(a, b) => tv_binds(*a, name) || tv_binds(*b, name),
        TypeV::Forall(v, a) => v == name || tv_binds(*a, name),
        TypeV::Union(_, s) => seq_binds(s, name, s.len()),
        _ => false,
    }
}

/// Whether one of the first `k` types of `s` binds `name`.
pub open spec fn seq_binds(s: Seq<TypeV>, name: Seq<char>, k: nat) -> bool
    decreases s, k,
{
    if k == 0 || k > s.len() {
        false
    } else {
        seq_binds(s, name, (k - 1) as nat) || tv_binds(s[k - 1], name)
    }
}

/// `t` with the type variable `name` replaced by `r` (aliases are left as they are).
pub open spec fn tv_subst(t: TypeV, name: Seq<char>, r: TypeV) -> TypeV
    decreases t, 0nat,
{
    match t {
        TypeV::Function(a, b) => TypeV::Function(
            Box::new(tv_subst(*a, name, r)),
            Box::new(tv_subst(*b, name, r)),
        ),
        TypeV::Product(a, b) => TypeV::Product(
            Box::new(tv_subst(*a, name, r)),
            Box::new(tv_subst(*b, name, r)),
        ),
        TypeV::TypeVariable(n) => if n == name {
            r
        } else {
            t
        },
        TypeV::Forall(v, a) => TypeV::Forall(v, Box::new(tv_subst(*a, name, r))),
        TypeV::Union(n, s) => TypeV::Union(n, seq_subst(s, name, r, s.len())),
        _ => t,
    }
}

/// The first `k` types of `s`, each with `name` replaced by `r`.
pub open spec fn seq_subst(s: Seq<TypeV>, name: Seq<char>, r: TypeV, k: nat) -> Seq<TypeV>
    decreases s, k,
{
    if k == 0 || k > s.len() {
        Seq::empty()
    } else {
        seq_subst(s, name, r, (k - 1) as nat).push(tv_subst(s[k - 1], name, r))
    }
}

/// `∀v1. ∀v2. ... t`, the first name outermost.
pub open spec fn tv_fa(vars: Seq<Seq<char>>, t: TypeV) -> TypeV
    decreases vars.len(),
{
    if vars.len() == 0 {
        t
    } else {
        TypeV::Forall(vars[0], Box::new(tv_fa(vars.drop_first(), t)))
    }
}

/// The number of arrows along the result side, under the quantifiers.
pub open spec fn tv_arity(t: TypeV) -> nat
    decreases t,
{
    match t {
        TypeV::Function(_, b) => 1 + tv_arity(*b),
        TypeV::Forall(_, b) => tv_arity(*b),
        _ => 0,
    }
}

/// Whether no `∀` occurs in `t` (looking through aliases).
pub open spec fn tv_is_monotype(t: TypeV) -> bool
    decreases t, 0nat,
{
    match t {
        TypeV::Function(a, b) => tv_is_monotype(*a) && tv_is_monotype(*b),
        TypeV::Product(a, b) => tv_is_monotype(*a) && tv_is_monotype(*b),
        TypeV::Forall(_, _) => false,
        TypeV::Union(_, s) => seq_is_monotype(s, s.len()),
        TypeV::Alias(_, a) => tv_is_monotype(*a),
        _ => true,
    }
}

/// Whether the first `k` types of `s` are monotypes.
pub open spec fn seq_is_monotype(s: Seq<TypeV>, k: nat) -> bool
    decreases s, k,
{
    if k == 0 || k > s.len() {
        true
    } else {
        seq_is_monotype(s, (k - 1) as nat) && tv_is_monotype(s[k - 1])
    }
}

/// The argument types of a function type followed by its final result.
pub open spec fn tv_flatten(t: TypeV) -> Seq<TypeV>
    decreases t,
{
    match t {
        TypeV::Function(a, b) => seq![*a] + tv_flatten(*b),
        TypeV::Forall(_, b) => tv_flatten(*b),
        _ => seq![t],
    }
}

/// The names bound by the outermost quantifiers, outermost first.
pub open spec fn tv_foralls(t: TypeV) -> Seq<Seq<char>>
    decreases t,
{
    match t {
        TypeV::Forall(v, b) => seq![v] + tv_foralls(*b),
        _ => Seq::empty(),
    }
}

/// `t` without its outermost quantifiers.
pub open spec fn tv_strip_foralls(t: TypeV) -> TypeV
    decreases t,
{
    match t {
        TypeV::Forall(_, b) => tv_strip_foralls(*b),
        _ => t,
    }
}

/// The names of type variables occurring in `t`, and those bound by its quantifiers.
pub open spec fn tv_tvs(t: TypeV) -> Set<Seq<char>>
    decreases t, 0nat,
{
    match t {
        TypeV::Function(a, b) => tv_tvs(*a).union(tv_tvs(*b)),
        TypeV::Forall(v, a) => tv_tvs(*a).insert(v),
        TypeV::Union(_, s) => seq_tvs(s, s.len()),
        TypeV::TypeVariable(n) => set![n],
        _ => Set::empty(),
    }
}

/// The type variables of the first `k` types of `s`.
pub open spec fn seq_tvs(s: Seq<TypeV>, k: nat) -> Set<Seq<char>>
    decreases s, k,
{
    if k == 0 || k > s.len() {
        Set::empty()
    } else {
        seq_tvs(s, (k - 1) as nat).union(tv_tvs(s[k - 1]))
    }
}

pub open spec fn upper_digit_char(d: nat) -> char {
    if d == 0 {
        '`'
    } else {
        ((96 + d) as u32) as char
    }
}

/// The digits above the lowest one, most significant first.
pub open spec fn upper_digits(n: nat) -> Seq<char>
    decreases n,
{
    if n == 0 {
        Seq::empty()
    } else {
        upper_digits(n / 26).push(upper_digit_char(n % 26))
    }
}

/// The name written for the number `n`: its base-26 digits as letters, the lowest digit
/// counted from `a`, the higher ones from the character before `a`.
pub open spec fn spec_num_id(n: nat) -> Seq<char> {
    upper_digits(n / 26).push(((97 + n % 26) as u32) as char)
}

pub open spec fn prim_str(p: Primitive) -> Seq<char> {
    match p {
        Primitive::Int64 => seq!['I', 'n', 't'],
        Primitive::Float64 => seq!['F', 'l', 'o', 'a', 't'],
        Primitive::Bool => seq!['B', 'o', 'o', 'l'],
        Primitive::Char => seq!['C', 'h', 'a', 'r'],
        Primitive::Invalid => seq!['I', 'n', 'v', 'a', 'l', 'i', 'd'],
    }
}

pub open spec fn paren(s: Seq<char>) -> Seq<char> {
    seq!['('] + s + seq![')']
}

/// How a type is written; with `full_braces` the right side of an arrow is bracketed too.
pub open spec fn tv_str(t: TypeV, full_braces: bool) -> Seq<char>
    decreases t, 0nat,
{
    match t {
        TypeV::Primitive(p) => prim_str(p),
        TypeV::Union(n, s) => n + union_args_str(s, full_braces, s.len()),
        TypeV::Function(a, b) => {
            let s1 = tv_str(*a, full_braces);
            let s1 = if *a is Function {
                paren(s1)
            } else {
                s1
            };
            let s2 = tv_str(*b, full_braces);
            let s2 = if full_braces && *b is Function {
                paren(s2)
            } else {
                s2
            };
            s1 + seq![' ', '-', '>', ' '] + s2
        },
        TypeV::TypeVariable(n) => n,
        TypeV::Existential(n) => seq!['E'] + spec_num_id(n),
        TypeV::Unit => seq!['1'],
        TypeV::Forall(n, a) => seq!['∀'] + n + seq!['.', ' '] + tv_str(*a, full_braces),
        TypeV::Product(a, b) => paren(tv_str(*a, full_braces) + seq![',', ' '] + tv_str(*b, full_braces)),
        TypeV::Alias(n, _) => n,
    }
}

/// The first `k` arguments of a union, each after a space.
pub open spec fn union_args_str(ts: Seq<TypeV>, full_braces: bool, k: nat) -> Seq<char>
    decreases ts, k,
{
    if k == 0 || k > ts.len() {
        Seq::empty()
    } else {
        union_args_str(ts, full_braces, (k - 1) as nat) + seq![' '] + tv_str(ts[k - 1], full_braces)
    }
}

impl Type {
    #[verifier::loop_isolation(false)]
    pub fn int64() -> (r: Type)
        ensures
            r@ == TypeV::Primitive(Primitive::Int64),
    {
        Type::Primitive(Primitive::Int64)
    }

    #[verifier::loop_isolation(false)]
    pub fn float64() -> (r: Type)
        ensures
            r@ == TypeV::Primitive(Primitive::Float64),
    {
        Type::Primitive(Primitive::Float64)
    }

    #[verifier::loop_isolation(false)]
    pub fn bool() -> (r: Type)
        ensures
            r@ == TypeV::Primitive(Primitive::Bool),
    {
        Type::Primitive(Primitive::Bool)
    }

    #[verifier::loop_isolation(false)]
    pub fn char() -> (r: Type)
        ensures
            r@ == TypeV::Primitive(Primitive::Char),
    {
        Type::Primitive(Primitive::Char)
    }

    /// The function type `t1 -> t2`.
    #[verifier::loop_isolation(false)]
    pub fn f(t1: Type, t2: Type) -> (r: Type)
        ensures
            r@ == TypeV::Function(Box::new(t1@), Box::new(t2@)),
    {
        Type::Function(Box::new(t1), Box::new(t2))
    }

    /// The type variable `name`.
    #[verifier::loop_isolation(false)]
    pub fn tv(name: String) -> (r: Type)
        ensures
            r@ == TypeV::TypeVariable(name@),
    {
        Type::TypeVariable(name)
    }

    /// The product type `(t1, t2)`.
    #[verifier::loop_isolation(false)]
    pub fn pr(t1: Type, t2: Type) -> (r: Type)
        ensures
            r@ == TypeV::Product(Box::new(t1@), Box::new(t2@)),
    {
        Type::Product(Box::new(t1), Box::new(t2))
    }

    /// Quantifies `t` over the given names, the first outermost.
    #[verifier::loop_isolation(false)]
    pub fn fa(forall: Vec<String>, t: Self) -> (r: Self)
        ensures
            r@ == tv_fa(names(forall@), t@),
    {
        let ghost nm = names(forall@);
        let mut r = t;
        let mut i = forall.len();
        while i > 0
            invariant
                i <= forall@.len(),
                nm == names(forall@),
                r@ == tv_fa(nm.subrange(i as int, nm.len() as int), t@),
            decreases i,
        {
            let name = forall[i - 1].clone();
            proof {
                let sub = nm.subrange(i - 1, nm.len() as int);
                assert(sub.drop_first() =~= nm.subrange(i as int, nm.len() as int));
                assert(sub[0] == name@);
            }
            r = Type::Forall(name, Box::new(r));
            i = i - 1;
        }
        assert(nm.subrange(0, nm.len() as int) =~= nm);
        r
    }

    /// A copy of the type.
    #[verifier::loop_isolation(false)]
    pub fn deep_clone(&self) -> (r: Type)
        ensures
            r@ == self@,
        decreases self,
    {
        match self {
            Type::Unit => Type::Unit,
            Type::Primitive(p) => Type::Primitive(*p),
            Type::Function(a, b) => Type::Function(
                Box::new((&**a).deep_clone()),
                Box::new((&**b).deep_clone()),
            ),
            Type::TypeVariable(n) => Type::TypeVariable(n.clone()),
            Type::Existential(e) => Type::Existential(*e),
            Type::Forall(n, a) => Type::Forall(n.clone(), Box::new((&**a).deep_clone())),
            Type::Product(a, b) => Type::Product(
                Box::new((&**a).deep_clone()),
                Box::new((&**b).deep_clone()),
            ),
            Type::Union(n, v) => {
                let mut out: Vec<Type> = Vec::new();
                let mut i: usize = 0;
                while i < v.len()
                    invariant
                        i <= v@.len(),
                        out@.len() == i,
                        forall|j: int| 0 <= j < i ==> out@[j]@ == v@[j]@,
                    decreases v@.len() - i,
                {
                    proof {
                        vstd::std_specs::vec::axiom_vec_index_decreases(*v, i as int);
                    }
                    out.push(v[i].deep_clone());
                    i = i + 1;
                }
                let r = Type::Union(n.clone(), out);
                proof {
                    lemma_union_view(*self);
                    lemma_union_view(r);
                    assert(views(out@) =~= views(v@));
                }
                r
            },
            Type::Alias(n, a) => Type::Alias(n.clone(), Box::new((&**a).deep_clone())),
        }
    }

    /// Whether two types have the same value.
    #[verifier::loop_isolation(false)]
    pub fn type_eq(&self, other: &Type) -> (r: bool)
        ensures
            r == (self@ == other@),
        decreases self,
    {
        match (self, other) {
            (Type::Unit, Type::Unit) => true,
            (Type::Primitive(a), Type::Primitive(b)) => *a == *b,
            (Type::Function(a1, b1), Type::Function(a2, b2)) => (&**a1).type_eq((&**a2))
                && (&**b1).type_eq((&**b2)),
            (Type::TypeVariable(a), Type::TypeVariable(b)) => str_eq(a, b),
            (Type::Existential(a), Type::Existential(b)) => *a == *b,
            (Type::Forall(n1, a1), Type::Forall(n2, a2)) => str_eq(n1, n2) && (&**a1).type_eq(
                (&**a2),
            ),
            (Type::Product(a1, b1), Type::Product(a2, b2)) => (&**a1).type_eq((&**a2))
                && (&**b1).type_eq((&**b2)),
            (Type::Union(n1, v1), Type::Union(n2, v2)) => {
                if !str_eq(n1, n2) || v1.len() != v2.len() {
                    proof {
                        lemma_union_view(*self);
                        lemma_union_view(*other);
                        assert(self@ == TypeV::Union(n1@, views(v1@)));
                        assert(other@ == TypeV::Union(n2@, views(v2@)));
                        assert(views(v1@).len() == v1@.len());
                        assert(views(v2@).len() == v2@.len());
                    }
                    return false;
                }
                proof { lemma_union_view(*self); lemma_union_view(*other); }
                let ghost s1 = views(v1@);
                let ghost s2 = views(v2@);
                let mut i: usize = 0;
                while i < v1.len()
                    invariant
                        i <= v1@.len(),
                        v1@.len() == v2@.len(),
                        forall|j: int| 0 <= j < i ==> v1@[j]@ == v2@[j]@,
                    decreases v1@.len() - i,
                {
                    proof {
                        vstd::std_specs::vec::axiom_vec_index_decreases(*v1, i as int);
                    }
                    if !v1[i].type_eq(&v2[i]) {
                        assert(s1[i as int] != s2[i as int]);
                        return false;
                    }
                    i = i + 1;
                }
                assert(s1 =~= s2);
                true
            },
            (Type::Alias(n1, a1), Type::Alias(n2, a2)) => str_eq(n1, n2) && (&**a1).type_eq(
                (&**a2),
            ),
            _ => false,
        }
    }

    /// Whether the existential `ex` occurs in the type.
    #[verifier::loop_isolation(false)]
    pub fn contains_existential(&self, ex: usize) -> (r: bool)
        ensures
            r == tv_contains_existential(self@, ex as nat),
        decreases self,
    {
        match self {
            Type::Function(a, b) => (&**a).contains_existential(ex)
                || (&**b).contains_existential(ex),
            Type::Product(a, b) => (&**a).contains_existential(ex)
                || (&**b).contains_existential(ex),
            Type::Existential(e) => *e == ex,
            Type::Forall(_, a) => (&**a).contains_existential(ex),
            Type::Alias(_, a) => (&**a).contains_existential(ex),
            Type::Union(un, v) => {
                proof { lemma_union_view(*self); }
                let ghost s = views(v@);
                assert(self@ == TypeV::Union(un@, s));
                let mut i: usize = 0;
                while i < v.len()
                    invariant
                        i <= v@.len(),
                        !seq_contains_existential(s, ex as nat, i as nat),
                    decreases v@.len() - i,
                {
                    proof {
                        vstd::std_specs::vec::axiom_vec_index_decreases(*v, i as int);
                    }
                    if v[i].contains_existential(ex) {
                        assert(seq_contains_existential(s, ex as nat, (i + 1) as nat));
                        proof { lemma_seq_contains_existential_mono(s, ex as nat, (i + 1) as nat, s.len()); }
                        return true;
                    }
                    i = i + 1;
                }
                false
            },
            _ => false,
        }
    }

    /// Whether some quantifier inside the type binds `name`.
    #[verifier::loop_isolation(false)]
    pub fn binds_type_variable(&self, name: &String) -> (r: bool)
        ensures
            r == tv_binds(self@, name@),
        decreases self,
    {
        match self {
            Type::Function(a, b) | Type::Product(a, b) => (&**a).binds_type_variable(name)
                || (&**b).binds_type_variable(name),
            Type::Forall(v, a) => str_eq(v, name) || (&**a).binds_type_variable(name),
            Type::Union(un, v) => {
                proof { lemma_union_view(*self); }
                let ghost s = views(v@);
                assert(self@ == TypeV::Union(un@, s));
                let mut i: usize = 0;
                while i < v.len()
                    invariant
                        i <= v@.len(),
                        !seq_binds(s, name@, i as nat),
                    decreases v@.len() - i,
                {
                    proof {
                        vstd::std_specs::vec::axiom_vec_index_decreases(*v, i as int);
                    }
                    if v[i].binds_type_variable(name) {
                        assert(seq_binds(s, name@, (i + 1) as nat));
                        proof { lemma_seq_binds_mono(s, name@, (i + 1) as nat, s.len()); }
                        return true;
                    }
                    i = i + 1;
                }
                false
            },
            _ => false,
        }
    }

    /// Replaces the type variable `to_replace` by `replacement`. A quantifier inside that
    /// binds the same name is refused (the name would be captured).
    #[verifier::loop_isolation(false)]
    pub fn substitute_type_variable(&self, to_replace: &String, replacement: &Type) -> (r: Result<
        Type,
        String,
    >)
        ensures
            r is Ok <==> !tv_binds(self@, to_replace@),
            r matches Ok(t) ==> t@ == tv_subst(self@, to_replace@, replacement@),
            r matches Err(e) ==> e@ == "Duplicate forall: "@ + to_replace@,
        decreases self,
    {
        if self.binds_type_variable(to_replace) {
            let mut e = lit("Duplicate forall: ");
            push_str(&mut e, to_replace.as_str());
            return Err(e);
        }
        Ok(self.subst_unchecked(to_replace, replacement))
    }

    #[verifier::loop_isolation(false)]
    fn subst_unchecked(&self, to_replace: &String, replacement: &Type) -> (r: Type)
        ensures
            r@ == tv_subst(self@, to_replace@, replacement@),
        decreases self,
    {
        match self {
            Type::Function(a, b) => Type::Function(
                Box::new((&**a).subst_unchecked(to_replace, replacement)),
                Box::new((&**b).subst_unchecked(to_replace, replacement)),
            ),
            Type::Product(a, b) => Type::Product(
                Box::new((&**a).subst_unchecked(to_replace, replacement)),
                Box::new((&**b).subst_unchecked(to_replace, replacement)),
            ),
            Type::TypeVariable(n) => {
                if str_eq(n, to_replace) {
                    replacement.deep_clone()
                } else {
                    Type::TypeVariable(n.clone())
                }
            },
            Type::Forall(v, a) => Type::Forall(
                v.clone(),
                Box::new((&**a).subst_unchecked(to_replace, replacement)),
            ),
            Type::Union(n, v) => {
                proof { lemma_union_view(*self); }
                let ghost s = views(v@);
                assert(self@ == TypeV::Union(n@, s));
                let mut out: Vec<Type> = Vec::new();
                let mut i: usize = 0;
                while i < v.len()
                    invariant
                        i <= v@.len(),
                        out@.len() == i,
                        views(out@) =~= seq_subst(s, to_replace@, replacement@, i as nat),
                    decreases v@.len() - i,
                {
                    proof {
                        vstd::std_specs::vec::axiom_vec_index_decreases(*v, i as int);
                    }
                    let x = v[i].subst_unchecked(to_replace, replacement);
                    let ghost prev = out@;
                    out.push(x);
                    assert(views(out@) =~= views(prev).push(x@));
                    i = i + 1;
                }
                let r = Type::Union(n.clone(), out);
                proof {
                    lemma_union_view(r);
                }
                r
            },
            _ => self.deep_clone(),
        }
    }

    /// Instantiates the outermost quantifier of the type with `t`.
    #[verifier::loop_isolation(false)]
    pub fn type_app(&self, t: &Type) -> (r: Result<Type, String>)
        ensures
            r is Ok <==> (self@ matches TypeV::Forall(v, b) && !tv_binds(*b, v)),
            r matches Ok(x) ==> (self@ matches TypeV::Forall(v, b) && x@ == tv_subst(*b, v, t@)),
    {
        match self {
            Type::Forall(v, b) => (&**b).substitute_type_variable(v, t),
            _ => {
                let mut e = lit("Type application error: ");
                let s = self.to_string();
                push_str(&mut e, s.as_str());
                push_str(&mut e, " is not a forall, so cannot substitute ");
                let s2 = t.to_string();
                push_str(&mut e, s2.as_str());
                Err(e)
            },
        }
    }

    /// Whether no quantifier occurs in the type.
    #[verifier::loop_isolation(false)]
    pub fn is_monotype(&self) -> (r: bool)
        ensures
            r == tv_is_monotype(self@),
        decreases self,
    {
        match self {
            Type::Function(a, b) | Type::Product(a, b) => (&**a).is_monotype()
                && (&**b).is_monotype(),
            Type::Forall(_, _) => false,
            Type::Alias(_, a) => (&**a).is_monotype(),
            Type::Union(un, v) => {
                proof { lemma_union_view(*self); }
                let ghost s = views(v@);
                assert(self@ == TypeV::Union(un@, s));
                let mut i: usize = 0;
                while i < v.len()
                    invariant
                        i <= v@.len(),
                        seq_is_monotype(s, i as nat),
                    decreases v@.len() - i,
                {
                    proof {
                        vstd::std_specs::vec::axiom_vec_index_decreases(*v, i as int);
                    }
                    if !v[i].is_monotype() {
                        assert(!seq_is_monotype(s, (i + 1) as nat));
                        proof { lemma_seq_is_monotype_mono(s, (i + 1) as nat, s.len()); }
                        return false;
                    }
                    i = i + 1;
                }
                true
            },
            _ => true,
        }
    }

    /// The argument types of a function type followed by its result.
    #[verifier::loop_isolation(false)]
    pub fn flatten(&self) -> (r: Vec<Self>)
        ensures
            views(r@) == tv_flatten(self@),
        decreases self,
    {
        match self {
            Type::Function(a, b) => {
                let mut out = vec![(&**a).deep_clone()];
                let rest = (&**b).flatten();
                let mut i: usize = 0;
                while i < rest.len()
                    invariant
                        i <= rest@.len(),
                        views(out@) == seq![a@] + views(rest@).subrange(0, i as int),
                    decreases rest@.len() - i,
                {
                    let x = rest[i].deep_clone();
                    let ghost prev = out@;
                    out.push(x);
                    assert(views(out@) =~= views(prev).push(x@));
                    i = i + 1;
                    assert(views(out@) =~= seq![a@] + views(rest@).subrange(0, i as int));
                }
                assert(views(rest@).subrange(0, rest@.len() as int) =~= views(rest@));
                out
            },
            Type::Forall(_, b) => (&**b).flatten(),
            _ => {
                let out = vec![self.deep_clone()];
                assert(views(out@) =~= seq![self@]);
                out
            },
        }
    }

    /// The names of the type variables of the type (those bound by its quantifiers too),
    /// each once.
    #[verifier::loop_isolation(false)]
    pub fn get_tvs_set(&self) -> (r: Vec<String>)
        ensures
            forall|i: int, j: int| 0 <= i < j < r@.len() ==> r@[i]@ != r@[j]@,
            forall|n: Seq<char>| tv_tvs(self@).contains(n) <==> names_has(r@, n),
        decreases self,
    {
        match self {
            Type::Function(a, b) => {
                let x = (&**a).get_tvs_set();
                let y = (&**b).get_tvs_set();
                union_names(x, &y)
            },
            Type::Forall(v, a) => {
                let x = (&**a).get_tvs_set();
                let y = vec![v.clone()];
                let r = union_names(x, &y);
                proof {
                    assert forall|n: Seq<char>| tv_tvs(self@).contains(n) <==> names_has(r@, n) by {
                        if n == v@ {
                            assert(y@[0]@ == n);
                        }
                    }
                }
                r
            },
            Type::Union(un, v) => {
                proof { lemma_union_view(*self); }
                let ghost s = views(v@);
                assert(self@ == TypeV::Union(un@, s));
                let mut out: Vec<String> = Vec::new();
                let mut i: usize = 0;
                while i < v.len()
                    invariant
                        i <= v@.len(),
                        forall|x: int, y: int| 0 <= x < y < out@.len() ==> out@[x]@ != out@[y]@,
                        forall|n: Seq<char>| seq_tvs(s, i as nat).contains(n) <==> names_has(out@, n),
                    decreases v@.len() - i,
                {
                    proof {
                        vstd::std_specs::vec::axiom_vec_index_decreases(*v, i as int);
                    }
                    let y = v[i].get_tvs_set();
                    let ghost prev = out@;
                    out = union_names(out, &y);
                    proof {
                        let ii = i as int;
                        assert(seq_tvs(s, (ii + 1) as nat) == seq_tvs(s, ii as nat).union(tv_tvs(s[ii])));
                        assert forall|n: Seq<char>| seq_tvs(s, (ii + 1) as nat).contains(n) <==> names_has(out@, n) by {
                        }
                    }
                    i = i + 1;
                }
                out
            },
            Type::TypeVariable(n) => {
                let r = vec![n.clone()];
                proof {
                    assert forall|m: Seq<char>| tv_tvs(self@).contains(m) <==> names_has(r@, m) by {
                        if m == n@ {
                            assert(r@[0]@ == m);
                        }
                    }
                }
                r
            },
            _ => Vec::new(),
        }
    }

    /// The number of arguments the type takes.
    #[verifier::loop_isolation(false)]
    pub fn get_arity(&self) -> (r: usize)
        requires
            tv_arity(self@) <= usize::MAX,
        ensures
            r == tv_arity(self@),
        decreases self,
    {
        match self {
            Type::Function(_, b) => 1 + (&**b).get_arity(),
            Type::Forall(_, b) => (&**b).get_arity(),
            _ => 0,
        }
    }

    /// The names bound by the outermost quantifiers, outermost first.
    #[verifier::loop_isolation(false)]
    pub fn get_foralls(&self) -> (r: Vec<String>)
        ensures
            names(r@) == tv_foralls(self@),
        decreases self,
    {
        match self {
            Type::Forall(v, b) => {
                let rest = (&**b).get_foralls();
                let mut out = vec![v.clone()];
                let mut i: usize = 0;
                while i < rest.len()
                    invariant
                        i <= rest@.len(),
                        names(out@) == seq![v@] + names(rest@).subrange(0, i as int),
                    decreases rest@.len() - i,
                {
                    let x = rest[i].clone();
                    let ghost prev = out@;
                    out.push(x);
                    assert(names(out@) =~= names(prev).push(x@));
                    i = i + 1;
                    assert(names(out@) =~= seq![v@] + names(rest@).subrange(0, i as int));
                }
                assert(names(rest@).subrange(0, rest@.len() as int) =~= names(rest@));
                out
            },
            _ => {
                let out: Vec<String> = Vec::new();
                assert(names(out@) =~= Seq::<Seq<char>>::empty());
                out
            },
        }
    }

    /// The type without its outermost quantifiers.
    #[verifier::loop_isolation(false)]
    pub fn strip_foralls(&self) -> (r: Type)
        ensures
            r@ == tv_strip_foralls(self@),
        decreases self,
    {
        match self {
            Type::Forall(_, b) => (&**b).strip_foralls(),
            _ => self.deep_clone(),
        }
    }

    /// The name written for a number: `0` is `a`, `25` is `z`, `26` is `aa`.
    #[verifier::loop_isolation(false)]
    pub fn num_identifier_to_str(n: usize) -> (r: String)
        ensures
            r@ == spec_num_id(n as nat),
    {
        let mut digits: Vec<char> = Vec::new();
        let low = n % 26;
        let mut m = n / 26;
        let ghost m0 = m;
        while m > 0
            invariant
                upper_digits(m0 as nat) == upper_digits(m as nat) + digits@.reverse(),
            decreases m,
        {
            let d = m % 26;
            let c = if d == 0 {
                '`'
            } else {
                char_of_u8(96 + d as u8)
            };
            proof {
                assert(c == upper_digit_char(d as nat));
                let q = (m / 26) as nat;
                assert(upper_digits(m as nat) == upper_digits(q).push(c));
                assert(digits@.push(c).reverse() =~= seq![c] + digits@.reverse());
                assert(upper_digits(q).push(c) + digits@.reverse() =~= upper_digits(q) + (seq![c]
                    + digits@.reverse()));
            }
            digits.push(c);
            m = m / 26;
        }
        let mut s = String::new();
        let mut i = digits.len();
        proof {
            assert(upper_digits(0) =~= Seq::<char>::empty());
            assert(upper_digits(m0 as nat) =~= digits@.reverse());
        }
        while i > 0
            invariant
                i <= digits@.len(),
                s@ == digits@.reverse().subrange(0, (digits@.len() - i) as int),
            decreases i,
        {
            push_char(&mut s, digits[i - 1]);
            i = i - 1;
            assert(s@ =~= digits@.reverse().subrange(0, (digits@.len() - i) as int));
        }
        let c0 = char_of_u8(97 + low as u8);
        push_char(&mut s, c0);
        proof {
            assert(digits@.reverse().subrange(0, digits@.len() as int) =~= digits@.reverse());
        }
        s
    }

    /// How the type is written; `full_braces` also brackets the right side of arrows.
    #[verifier::loop_isolation(false)]
    pub fn to_string_internal(&self, full_braces: bool) -> (r: String)
        ensures
            r@ == tv_str(self@, full_braces),
        decreases self,
    {
        match self {
            Type::Primitive(p) => {
                let mut out = String::new();
                match p {
                    Primitive::Int64 => { push_char(&mut out, 'I'); push_char(&mut out, 'n'); push_char(&mut out, 't'); },
                    Primitive::Float64 => { push_char(&mut out, 'F'); push_char(&mut out, 'l'); push_char(&mut out, 'o'); push_char(&mut out, 'a'); push_char(&mut out, 't'); },
                    Primitive::Bool => { push_char(&mut out, 'B'); push_char(&mut out, 'o'); push_char(&mut out, 'o'); push_char(&mut out, 'l'); },
                    Primitive::Char => { push_char(&mut out, 'C'); push_char(&mut out, 'h'); push_char(&mut out, 'a'); push_char(&mut out, 'r'); },
                    Primitive::Invalid => { push_char(&mut out, 'I'); push_char(&mut out, 'n'); push_char(&mut out, 'v'); push_char(&mut out, 'a'); push_char(&mut out, 'l'); push_char(&mut out, 'i'); push_char(&mut out, 'd'); },
                }
                assert(out@ =~= prim_str(*p));
                out
            },
            Type::Union(n, v) => {
                proof { lemma_union_view(*self); }
                let ghost s = views(v@);
                assert(self@ == TypeV::Union(n@, s));
                let mut out = n.clone();
                let mut i: usize = 0;
                while i < v.len()
                    invariant
                        i <= v@.len(),
                        s.len() == v@.len(),
                        forall|j: int| 0 <= j < v@.len() ==> s[j] == v@[j]@,
                        out@ == n@ + union_args_str(s, full_braces, i as nat),
                    decreases v@.len() - i,
                {
                    proof {
                        vstd::std_specs::vec::axiom_vec_index_decreases(*v, i as int);
                    }
                    push_char(&mut out, ' ');
                    let a = v[i].to_string_internal(full_braces);
                    push_str(&mut out, a.as_str());
                    i = i + 1;
                    assert(out@ =~= n@ + union_args_str(s, full_braces, i as nat));
                }
                out
            },
            Type::Function(t1, t2) => {
                let a = (&**t1).to_string_internal(full_braces);
                let a = match (&**t1) {
                    Type::Function(_, _) => bracket(&a),
                    _ => a,
                };
                let b = (&**t2).to_string_internal(full_braces);
                let b = if full_braces {
                    match (&**t2) {
                        Type::Function(_, _) => bracket(&b),
                        _ => b,
                    }
                } else {
                    b
                };
                let mut out = a;
                push_char(&mut out, ' ');
                push_char(&mut out, '-');
                push_char(&mut out, '>');
                push_char(&mut out, ' ');
                push_str(&mut out, b.as_str());
                assert(out@ =~= a@ + seq![' ', '-', '>', ' '] + b@);
                out
            },
            Type::TypeVariable(n) => n.clone(),
            Type::Existential(n) => {
                let mut out = String::new();
                push_char(&mut out, 'E');
                let id = Type::num_identifier_to_str(*n);
                push_str(&mut out, id.as_str());
                assert(out@ =~= seq!['E'] + id@);
                out
            },
            Type::Unit => {
                let mut out = String::new();
                push_char(&mut out, '1');
                assert(out@ =~= seq!['1']);
                out
            },
            Type::Forall(n, t) => {
                let mut out = String::new();
                push_char(&mut out, '∀');
                push_str(&mut out, n.as_str());
                push_char(&mut out, '.');
                push_char(&mut out, ' ');
                let b = (&**t).to_string_internal(full_braces);
                push_str(&mut out, b.as_str());
                assert(out@ =~= seq!['∀'] + n@ + seq!['.', ' '] + b@);
                out
            },
            Type::Product(t1, t2) => {
                let mut out = String::new();
                push_char(&mut out, '(');
                let a = (&**t1).to_string_internal(full_braces);
                push_str(&mut out, a.as_str());
                push_char(&mut out, ',');
                push_char(&mut out, ' ');
                let b = (&**t2).to_string_internal(full_braces);
                push_str(&mut out, b.as_str());
                push_char(&mut out, ')');
                assert(out@ =~= paren(a@ + seq![',', ' '] + b@));
                out
            },
            Type::Alias(s, _) => s.clone(),
        }
    }

    /// The type as it is displayed.
    #[verifier::loop_isolation(false)]
    pub fn to_string(&self) -> (r: String)
        ensures
            r@ == tv_str(self@, false),
    {
        self.to_string_internal(false)
    }

    /// The type with every arrow bracketed, as the debugging form shows it.
    #[verifier::loop_isolation(false)]
    pub fn to_debug_string(&self) -> (r: String)
        ensures
            r@ == tv_str(self@, true),
    {
        self.to_string_internal(true)
    }
}

impl Clone for Type {
    fn clone(&self) -> (r: Self)
        ensures
            r@ == self@,
    {
        self.deep_clone()
    }
}

/// Whether one of the strings of `v` is `s`.
pub open spec fn names_has(v: Seq<String>, s: Seq<char>) -> bool {
    exists|i: int| 0 <= i < v.len() && v[i]@ == s
}

/// `s` between round brackets.
#[verifier::loop_isolation(false)]
pub fn bracket(s: &String) -> (r: String)
    ensures
        r@ == paren(s@),
{
    let mut out = String::new();
    push_char(&mut out, '(');
    push_str(&mut out, s.as_str());
    push_char(&mut out, ')');
    assert(out@ =~= paren(s@));
    out
}

/// The character with the given ASCII code.
#[verifier::loop_isolation(false)]
pub fn char_of_u8(b: u8) -> (c: char)
    requires
        b < 128,
    ensures
        c == (b as u32) as char,
{
    b as char
}

/// The names of `a` followed by those of `b` that are not already there.
#[verifier::loop_isolation(false)]
pub fn union_names(a: Vec<String>, b: &Vec<String>) -> (r: Vec<String>)
    requires
        forall|i: int, j: int| 0 <= i < j < a@.len() ==> a@[i]@ != a@[j]@,
    ensures
        forall|i: int, j: int| 0 <= i < j < r@.len() ==> r@[i]@ != r@[j]@,
        forall|s: Seq<char>| #[trigger] names_has(r@, s) <==> (names_has(a@, s) || names_has(b@, s)),
{
    let mut r = a;
    let ghost a0 = r@;
    let mut i: usize = 0;
    while i < b.len()
        invariant
            i <= b@.len(),
            forall|x: int, y: int| 0 <= x < y < r@.len() ==> r@[x]@ != r@[y]@,
            forall|s: Seq<char>| #[trigger] names_has(r@, s) <==> (names_has(a0, s) || names_has(b@.subrange(0, i as int), s)),
        decreases b@.len() - i,
    {
        let found = names_contain(&r, &b[i]);
        let ghost prev = r@;
        if !found {
            r.push(b[i].clone());
        }
        proof {
            let ii = i as int;
            let bi = b@.subrange(0, ii + 1);
            let bp = b@.subrange(0, ii);
            assert forall|s: Seq<char>| #[trigger] names_has(r@, s) <==> (names_has(a0, s) || names_has(bi, s)) by {
                if names_has(bi, s) {
                    let x = choose|x: int| 0 <= x < bi.len() && bi[x]@ == s;
                    if x < ii {
                        assert(bp[x]@ == s);
                    } else {
                        if !found {
                            assert(r@[r@.len() - 1]@ == s);
                        }
                    }
                }
                if names_has(bp, s) {
                    let x = choose|x: int| 0 <= x < bp.len() && bp[x]@ == s;
                    assert(bi[x]@ == s);
                }
                if names_has(r@, s) && !found {
                    let x = choose|x: int| 0 <= x < r@.len() && r@[x]@ == s;
                    if x < prev.len() {
                        assert(prev[x]@ == s);
                    } else {
                        assert(bi[ii]@ == s);
                    }
                }
                if names_has(prev, s) {
                    let x = choose|x: int| 0 <= x < prev.len() && prev[x]@ == s;
                    assert(r@[x]@ == s);
                }
            }
        }
        i = i + 1;
    }
    assert(b@.subrange(0, b@.len() as int) =~= b@);
    r
}

/// Whether some name of `v` equals `s`.
#[verifier::loop_isolation(false)]
pub fn names_contain(v: &Vec<String>, s: &String) -> (r: bool)
    ensures
        r == names_has(v@, s@),
{
    let mut i: usize = 0;
    while i < v.len()
        invariant
            i <= v@.len(),
            forall|j: int| 0 <= j < i ==> v@[j]@ != s@,
        decreases v@.len() - i,
    {
        if str_eq(&v[i], s) {
            return true;
        }
        i = i + 1;
    }
    false
}

} // verus!
