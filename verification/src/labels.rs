//! The labels a program can refer to: the inbuilt functions and the typed definitions,
//! kept by the number of arguments they need before they reduce.
use vstd::prelude::*;

use crate::ast::{ASTNode, ASTNodeType, AST};
use crate::lexer::{bool_lit_form, int_lit_form};
use crate::text::{
    all_digits, digits_val, i64_to_string, int_str, lit, parse_i64, parse_i64_spec, parse_int,
    str_eq,
};
use crate::token::{Token, TokenType};
use crate::types::{names, names_has, tv_arity, tv_fa, Primitive, Type, TypeError, TypeV};

verus! {

/// The inbuilt functions.
#[derive(Clone, Copy, Debug, PartialEq, Eq, Structural)]
pub enum Inbuilt {
    IntAdd,
    IntSub,
    IntMul,
    IntDiv,
    IntEq,
    IntLt,
    IntGt,
    IntLte,
    IntGte,
    IntNeg,
    FloatAdd,
    FloatSub,
    FloatMul,
    FloatDiv,
    FloatEq,
    FloatLt,
    FloatGt,
    FloatLte,
    FloatGte,
    FloatNeg,
    If,
    Id,
    Const1,
    Const2,
}

#[derive(Clone, Debug)]
pub struct Label {
    /// The number of arguments needed to reduce the function.
    pub reduction_arity: usize,
    pub inbuilt: Option<Inbuilt>,
    pub label_type: Type,
}

/// The labels, by the number of arguments they need: `map[a]` holds those needing `a`.
/// Within one arity a name occurs once.
pub struct LabelTable {
    pub map: Vec<Vec<(String, Label)>>,
}

/// The label named `name` in a bucket.
pub open spec fn bucket_get(b: Seq<(String, Label)>, name: Seq<char>) -> Option<Label>
    decreases b.len(),
{
    if b.len() == 0 {
        None
    } else if b.last().0@ == name {
        Some(b.last().1)
    } else {
        bucket_get(b.drop_last(), name)
    }
}

/// Names occur once in a bucket.
pub open spec fn bucket_wf(b: Seq<(String, Label)>) -> bool {
    forall|i: int, j: int| 0 <= i < j < b.len() ==> b[i].0@ != b[j].0@
}

pub proof fn lemma_bucket_get_index(b: Seq<(String, Label)>, name: Seq<char>)
    requires
        bucket_wf(b),
    ensures
        bucket_get(b, name) matches Some(l) ==> exists|i: int| 0 <= i < b.len() && b[i].0@ == name && b[i].1 == l,
        bucket_get(b, name) is None <==> forall|i: int| 0 <= i < b.len() ==> b[i].0@ != name,
    decreases b.len(),
{
    if b.len() > 0 {
        assert(bucket_wf(b.drop_last()));
        lemma_bucket_get_index(b.drop_last(), name);
        if b.last().0@ != name {
            assert forall|i: int| 0 <= i < b.drop_last().len() implies b.drop_last()[i] == b[i] by {}
        }
    }
}

pub proof fn lemma_bucket_get_at(b: Seq<(String, Label)>, i: int)
    requires
        bucket_wf(b),
        0 <= i < b.len(),
    ensures
        bucket_get(b, b[i].0@) == Some(b[i].1),
    decreases b.len(),
{
    if i < b.len() - 1 {
        assert(b.drop_last()[i] == b[i]);
        assert(bucket_wf(b.drop_last()));
        lemma_bucket_get_at(b.drop_last(), i);
    }
}

pub proof fn lemma_bucket_get_update(b: Seq<(String, Label)>, i: int, x: (String, Label), name: Seq<char>)
    requires
        bucket_wf(b),
        0 <= i < b.len(),
        x.0@ == b[i].0@,
    ensures
        bucket_wf(b.update(i, x)),
        bucket_get(b.update(i, x), name) == (if name == x.0@ { Some(x.1) } else { bucket_get(b, name) }),
{
    let c = b.update(i, x);
    assert(bucket_wf(c));
    lemma_bucket_get_index(b, name);
    lemma_bucket_get_index(c, name);
    if name == x.0@ {
        lemma_bucket_get_at(c, i);
    } else {
        if let Some(l) = bucket_get(b, name) {
            let k = choose|k: int| 0 <= k < b.len() && b[k].0@ == name && b[k].1 == l;
            lemma_bucket_get_at(c, k);
            lemma_bucket_get_at(b, k);
        } else {
            assert forall|k: int| 0 <= k < c.len() implies c[k].0@ != name by {}
        }
    }
}

pub proof fn lemma_bucket_get_remove(b: Seq<(String, Label)>, i: int, name: Seq<char>)
    requires
        bucket_wf(b),
        0 <= i < b.len(),
    ensures
        bucket_wf(b.remove(i)),
        bucket_get(b.remove(i), name) == (if name == b[i].0@ { None } else { bucket_get(b, name) }),
{
    let c = b.remove(i);
    assert forall|x: int, y: int| 0 <= x < y < c.len() implies c[x].0@ != c[y].0@ by {
        let xb = if x < i { x } else { x + 1 };
        let yb = if y < i { y } else { y + 1 };
        assert(c[x] == b[xb] && c[y] == b[yb]);
    }
    lemma_bucket_get_index(b, name);
    lemma_bucket_get_index(c, name);
    if name == b[i].0@ {
        assert forall|k: int| 0 <= k < c.len() implies c[k].0@ != name by {
            let kb = if k < i { k } else { k + 1 };
            assert(c[k] == b[kb]);
        }
    } else {
        if let Some(l) = bucket_get(b, name) {
            let j = choose|j: int| 0 <= j < b.len() && b[j].0@ == name && b[j].1 == l;
            let jc = if j < i { j } else { j - 1 };
            assert(c[jc] == b[j]);
            lemma_bucket_get_at(c, jc);
        } else {
            assert forall|k: int| 0 <= k < c.len() implies c[k].0@ != name by {
                let kb = if k < i { k } else { k + 1 };
                assert(c[k] == b[kb]);
            }
        }
    }
}

pub proof fn lemma_bucket_get_push(b: Seq<(String, Label)>, x: (String, Label), name: Seq<char>)
    requires
        bucket_wf(b),
        forall|i: int| 0 <= i < b.len() ==> b[i].0@ != x.0@,
    ensures
        bucket_wf(b.push(x)),
        bucket_get(b.push(x), name) == (if name == x.0@ { Some(x.1) } else { bucket_get(b, name) }),
{
    assert(b.push(x).drop_last() =~= b);
}

/// `a -> b`.
pub open spec fn arrow(a: TypeV, b: TypeV) -> TypeV {
    TypeV::Function(Box::new(a), Box::new(b))
}

pub open spec fn int_t() -> TypeV {
    TypeV::Primitive(Primitive::Int64)
}

pub open spec fn float_t() -> TypeV {
    TypeV::Primitive(Primitive::Float64)
}

pub open spec fn bool_t() -> TypeV {
    TypeV::Primitive(Primitive::Bool)
}

/// The type variable named `a`.
pub open spec fn var_a() -> TypeV {
    TypeV::TypeVariable("a"@)
}

/// The type variable named `b`.
pub open spec fn var_b() -> TypeV {
    TypeV::TypeVariable("b"@)
}

/// The inbuilt arithmetic on integers, by arity and name: what it does and its type.
pub open spec fn arith_at(a: int, n: Seq<char>) -> Option<(Inbuilt, TypeV)> {
    let t = arrow(int_t(), arrow(int_t(), int_t()));
    if a != 2 {
        None
    } else if n == "add"@ {
        Some((Inbuilt::IntAdd, t))
    } else if n == "sub"@ {
        Some((Inbuilt::IntSub, t))
    } else if n == "mul"@ {
        Some((Inbuilt::IntMul, t))
    } else if n == "div"@ {
        Some((Inbuilt::IntDiv, t))
    } else if n == "+"@ {
        Some((Inbuilt::IntAdd, t))
    } else if n == "-"@ {
        Some((Inbuilt::IntSub, t))
    } else if n == "*"@ {
        Some((Inbuilt::IntMul, t))
    } else if n == "/"@ {
        Some((Inbuilt::IntDiv, t))
    } else {
        None
    }
}

/// The inbuilt comparisons of integers, by arity and name.
pub open spec fn compare_at(a: int, n: Seq<char>) -> Option<(Inbuilt, TypeV)> {
    let t = arrow(int_t(), arrow(int_t(), bool_t()));
    if a != 2 {
        None
    } else if n == "eq"@ {
        Some((Inbuilt::IntEq, t))
    } else if n == "lte"@ {
        Some((Inbuilt::IntLte, t))
    } else if n == "lt"@ {
        Some((Inbuilt::IntLt, t))
    } else if n == "gte"@ {
        Some((Inbuilt::IntGte, t))
    } else if n == "gt"@ {
        Some((Inbuilt::IntGt, t))
    } else if n == "=="@ {
        Some((Inbuilt::IntEq, t))
    } else if n == "<="@ {
        Some((Inbuilt::IntLte, t))
    } else if n == "<"@ {
        Some((Inbuilt::IntLt, t))
    } else if n == ">="@ {
        Some((Inbuilt::IntGte, t))
    } else if n == ">"@ {
        Some((Inbuilt::IntGt, t))
    } else {
        None
    }
}

/// The inbuilt arithmetic on and comparisons of floats, by arity and name.
pub open spec fn float_at(a: int, n: Seq<char>) -> Option<(Inbuilt, TypeV)> {
    let t = arrow(float_t(), arrow(float_t(), float_t()));
    let c = arrow(float_t(), arrow(float_t(), bool_t()));
    if a != 2 {
        None
    } else if n == "addf"@ {
        Some((Inbuilt::FloatAdd, t))
    } else if n == "subf"@ {
        Some((Inbuilt::FloatSub, t))
    } else if n == "mulf"@ {
        Some((Inbuilt::FloatMul, t))
    } else if n == "divf"@ {
        Some((Inbuilt::FloatDiv, t))
    } else if n == "eqf"@ {
        Some((Inbuilt::FloatEq, c))
    } else if n == "ltef"@ {
        Some((Inbuilt::FloatLte, c))
    } else if n == "ltf"@ {
        Some((Inbuilt::FloatLt, c))
    } else if n == "gtef"@ {
        Some((Inbuilt::FloatGte, c))
    } else if n == "gtf"@ {
        Some((Inbuilt::FloatGt, c))
    } else {
        None
    }
}

/// The other inbuilts: `id`, the two constant functions, `if` and the negations.
pub open spec fn control_at(a: int, n: Seq<char>) -> Option<(Inbuilt, TypeV)> {
    if a == 1 && n == "id"@ {
        Some((Inbuilt::Id, TypeV::Forall("a"@, Box::new(arrow(var_a(), var_a())))))
    } else if a == 0 && n == "const1"@ {
        Some((Inbuilt::Const1, TypeV::Forall("a"@, Box::new(TypeV::Forall("b"@, Box::new(arrow(var_a(), arrow(var_b(), var_a()))))))))
    } else if a == 0 && n == "const2"@ {
        Some((Inbuilt::Const2, TypeV::Forall("a"@, Box::new(TypeV::Forall("b"@, Box::new(arrow(var_a(), arrow(var_b(), var_b()))))))))
    } else if a == 1 && n == "if"@ {
        Some((Inbuilt::If, TypeV::Forall("a"@, Box::new(arrow(bool_t(), arrow(var_a(), arrow(var_a(), var_a())))))))
    } else if a == 1 && n == "neg"@ {
        Some((Inbuilt::IntNeg, arrow(int_t(), int_t())))
    } else if a == 1 && n == "negf"@ {
        Some((Inbuilt::FloatNeg, arrow(float_t(), float_t())))
    } else {
        None
    }
}

/// Every inbuilt, by the number of arguments it needs and its name: what it does and
/// its type.
pub open spec fn inbuilt_at(a: int, n: Seq<char>) -> Option<(Inbuilt, TypeV)> {
    if arith_at(a, n) is Some {
        arith_at(a, n)
    } else if compare_at(a, n) is Some {
        compare_at(a, n)
    } else if float_at(a, n) is Some {
        float_at(a, n)
    } else {
        control_at(a, n)
    }
}

/// Some inbuilt is named `n`.
pub open spec fn is_inbuilt_name(n: Seq<char>) -> bool {
    exists|a: int| #[trigger] inbuilt_at(a, n) is Some
}

/// The first entry from the `j`th on with arity `a` and name `n`.
pub open spec fn entries_from(es: Seq<(&str, usize, Inbuilt, Type)>, j: int, a: int, n: Seq<char>) -> Option<(Inbuilt, TypeV)>
    decreases es.len() - j,
{
    if j < 0 || j >= es.len() {
        None
    } else if es[j].1 == a && es[j].0@ == n {
        Some((es[j].2, es[j].3@))
    } else {
        entries_from(es, j + 1, a, n)
    }
}

/// `o` is the label of the inbuilt `e`, reducing with `a` arguments.
pub open spec fn holds_inbuilt(o: Option<Label>, a: int, e: (Inbuilt, TypeV)) -> bool {
    &&& o is Some
    &&& o->0.reduction_arity == a
    &&& o->0.inbuilt == Some(e.0)
    &&& o->0.label_type@ == e.1
}

/// `lt` holds the labels of the inbuilt functions and nothing else.
pub open spec fn inbuilt_table(lt: &LabelTable) -> bool {
    forall|a: int, n: Seq<char>| #[trigger] lt.at(a, n) == lt.at(a, n) && (inbuilt_at(a, n) is None ==> lt.at(a, n) is None)
        && (inbuilt_at(a, n) matches Some(e) ==> holds_inbuilt(lt.at(a, n), a, e))
}

/// A table that `LabelTable::new` states holds the inbuilt functions only.
pub proof fn lemma_new_inbuilt_table(lt: &LabelTable)
    requires
        forall|a: int, n: Seq<char>| inbuilt_at(a, n) is None ==> #[trigger] lt.at(a, n) is None,
        forall|a: int, n: Seq<char>| #[trigger] inbuilt_at(a, n) matches Some(e) ==> holds_inbuilt(lt.at(a, n), a, e),
    ensures
        inbuilt_table(lt),
{
    assert forall|a: int, n: Seq<char>| #[trigger] lt.at(a, n) == lt.at(a, n) && (inbuilt_at(a, n) is None ==> lt.at(a, n) is None)
        && (inbuilt_at(a, n) matches Some(e) ==> holds_inbuilt(lt.at(a, n), a, e)) by {
        if inbuilt_at(a, n) is Some {
            assert(holds_inbuilt(lt.at(a, n), a, inbuilt_at(a, n)->0));
        }
    }
}

impl LabelTable {
    pub open spec fn wf(&self) -> bool {
        &&& self.map@.len() >= 1
        &&& forall|a: int| 0 <= a < self.map@.len() ==> bucket_wf(#[trigger] self.map@[a]@)
    }

    /// The label named `name` among those needing `arity` arguments.
    pub open spec fn at(&self, arity: int, name: Seq<char>) -> Option<Label> {
        if 0 <= arity < self.map@.len() {
            bucket_get(self.map@[arity]@, name)
        } else {
            None
        }
    }

    /// The label named `name` with the fewest arguments, among the first `k` arities.
    pub open spec fn first_from(&self, name: Seq<char>, k: nat) -> Option<Label>
        decreases k,
    {
        if k == 0 {
            None
        } else if self.first_from(name, (k - 1) as nat) is Some {
            self.first_from(name, (k - 1) as nat)
        } else {
            self.at(k - 1, name)
        }
    }

    /// Some label named `name` has type `t`.
    pub open spec fn has_label_type(&self, name: Seq<char>, t: TypeV) -> bool {
        exists|a: int| #[trigger] self.at(a, name) is Some && self.at(a, name)->0.label_type@ == t
    }

    /// The label named `name` with the fewest arguments.
    pub open spec fn lookup(&self, name: Seq<char>) -> Option<Label> {
        self.first_from(name, self.map@.len())
    }

    /// An empty table.
    pub fn empty() -> (r: Self)
        ensures
            r.wf(),
            r.map@.len() == 1,
            forall|a: int, n: Seq<char>| #[trigger] r.at(a, n) is None,
    {
        let r = LabelTable { map: vec![Vec::new()] };
        assert(r.map@[0]@.len() == 0);
        r
    }

    /// The table of the inbuilt functions: it holds exactly those that `inbuilt_at` names.
    pub fn new() -> (r: Self)
        ensures
            r.wf(),
            forall|a: int, n: Seq<char>| inbuilt_at(a, n) is None ==> #[trigger] r.at(a, n) is None,
            forall|a: int, n: Seq<char>| #[trigger] inbuilt_at(a, n) matches Some(e) ==> holds_inbuilt(r.at(a, n), a, e),
    {
        let mut s = Self::empty();
        s.populate_inbuilts();
        s
    }

    /// The number of arities the table has room for.
    pub fn get_max_arity(&self) -> (r: usize)
        ensures
            r == self.map@.len(),
    {
        self.map.len()
    }

    /// Puts a label in the bucket of arity `arity`, replacing one of the same name there.
    fn insert(&mut self, arity: usize, name: String, label: Label)
        requires
            old(self).wf(),
        ensures
            final(self).wf(),
            final(self).map@.len() == if arity < old(self).map@.len() { old(self).map@.len() as int } else { arity + 1 },
            forall|a: int, n: Seq<char>| #[trigger] final(self).at(a, n) == if a == arity && n == name@ {
                Some(label)
            } else {
                old(self).at(a, n)
            },
    {
        let ghost old_self = *self;
        while self.map.len() <= arity
            invariant
                self.wf(),
                forall|a: int, n: Seq<char>| #[trigger] self.at(a, n) == old_self.at(a, n),
                old_self.map@.len() <= self.map@.len(),
                self.map@.len() <= (if arity < old_self.map@.len() { old_self.map@.len() as int } else { arity + 1 }),
                arity < old_self.map@.len() ==> self.map@.len() == old_self.map@.len(),
            decreases arity + 1 - self.map@.len(),
        {
            let ghost before = *self;
            self.map.push(Vec::new());
            proof {
                assert forall|a: int, n: Seq<char>| #[trigger] self.at(a, n) == old_self.at(a, n) by {
                    assert(before.at(a, n) == old_self.at(a, n));
                    if 0 <= a < before.map@.len() {
                        assert(self.map@[a] == before.map@[a]);
                    }
                    if a == before.map@.len() {
                        assert(self.map@[a]@.len() == 0);
                    }
                }
            }
        }
        let ghost mid = *self;
        let pos = find_name(&self.map[arity], &name);
        let ghost b = self.map@[arity as int]@;
        let ghost x = (name, label);
        proof {
            assert(bucket_wf(self.map@[arity as int]@));
        }
        match pos {
            Some(i) => {
                self.map[arity].set(i, (name, label));
                proof {
                    assert forall|n: Seq<char>| bucket_get(b.update(i as int, x), n) == (if n == x.0@ { Some(x.1) } else { bucket_get(b, n) }) by {
                        lemma_bucket_get_update(b, i as int, x, n);
                    }
                    lemma_bucket_get_update(b, i as int, x, name@);
                }
            },
            None => {
                self.map[arity].push((name, label));
                proof {
                    assert forall|n: Seq<char>| bucket_get(b.push(x), n) == (if n == x.0@ { Some(x.1) } else { bucket_get(b, n) }) by {
                        lemma_bucket_get_push(b, x, n);
                    }
                    lemma_bucket_get_push(b, x, name@);
                }
            },
        }
        proof {
            assert forall|a: int| 0 <= a < self.map@.len() implies bucket_wf(#[trigger] self.map@[a]@) by {
                if a != arity {
                    assert(self.map@[a] == mid.map@[a]);
                }
            }
            assert forall|a: int, n: Seq<char>| #[trigger] self.at(a, n) == if a == arity && n == name@ {
                Some(label)
            } else {
                old_self.at(a, n)
            } by {
                if a != arity && 0 <= a < self.map@.len() {
                    assert(self.map@[a] == mid.map@[a]);
                }
                assert(mid.at(a, n) == old_self.at(a, n));
            }
        }
    }

    /// Adds the inbuilt `func` named `name`, which reduces once it has `arity` arguments.
    fn add_inbuilt(&mut self, name: &str, arity: usize, func: Inbuilt, func_type: Type)
        requires
            old(self).wf(),
        ensures
            final(self).wf(),
            forall|a: int, n: Seq<char>| #[trigger] final(self).at(a, n) == if a == arity && n == name@ {
                Some(Label { reduction_arity: arity, inbuilt: Some(func), label_type: func_type })
            } else {
                old(self).at(a, n)
            },
    {
        let label = Label { reduction_arity: arity, inbuilt: Some(func), label_type: func_type };
        self.insert(arity, lit(name), label);
    }

    /// Adds a defined label of the given type; it reduces once it has as many arguments as
    /// the type has arrows.
    pub fn add(&mut self, name: String, type_: Type)
        requires
            old(self).wf(),
            tv_arity(type_@) < usize::MAX,
        ensures
            final(self).wf(),
            forall|a: int, n: Seq<char>| #[trigger] final(self).at(a, n) == if a == tv_arity(type_@) && n == name@ {
                Some(Label { reduction_arity: tv_arity(type_@) as usize, inbuilt: None, label_type: type_ })
            } else {
                old(self).at(a, n)
            },
    {
        let arity = type_.get_arity();
        let label = Label { reduction_arity: arity, inbuilt: None, label_type: type_ };
        self.insert(arity, name, label);
    }

    /// Removes the label named `name` with the fewest arguments; whether there was one.
    pub fn remove(&mut self, name: &String) -> (r: bool)
        requires
            old(self).wf(),
        ensures
            final(self).wf(),
            r == (old(self).lookup(name@) is Some),
            final(self).map@.len() == old(self).map@.len(),
            forall|a: int, n: Seq<char>| #[trigger] final(self).at(a, n) == if n == name@ && old(self).at(a, n) is Some && old(self).first_from(n, a as nat) is None {
                None
            } else {
                old(self).at(a, n)
            },
    {
        let ghost old_self = *self;
        let mut a: usize = 0;
        while a < self.map.len()
            invariant
                self.wf(),
                *self == old_self,
                old_self == *old(self),
                a <= self.map@.len(),
                old_self.first_from(name@, a as nat) is None,
            decreases self.map@.len() - a,
        {
            proof { assert(bucket_wf(self.map@[a as int]@)); }
            let pos = find_name(&self.map[a], name);
            match pos {
                Some(i) => {
                    let ghost bb = self.map@[a as int]@;
                    proof {
                        lemma_bucket_get_at(bb, i as int);
                        self.lemma_first_from_mono(name@, (a + 1) as nat, self.map@.len());
                        assert(old_self.first_from(name@, (a + 1) as nat) is Some);
                        assert(old_self.lookup(name@) is Some);
                    }
                    let ghost before = *self;
                    let removed = self.map[a].remove(i);
                    assert(self.map@.len() == before.map@.len());
                    proof {
                        assert(self.map@[a as int]@ =~= bb.remove(i as int));
                        assert forall|m: Seq<char>| #[trigger] bucket_get(self.map@[a as int]@, m) == (if m == name@ { None } else { bucket_get(bb, m) }) by {
                            lemma_bucket_get_remove(bb, i as int, m);
                        }
                        lemma_bucket_get_remove(bb, i as int, name@);
                        assert forall|k: int| 0 <= k < self.map@.len() implies bucket_wf(#[trigger] self.map@[k]@) by {
                            if k != a {
                                assert(self.map@[k] == before.map@[k]);
                            }
                        }
                        assert forall|x: int, n: Seq<char>| #[trigger] self.at(x, n) == if n == name@ && old_self.at(x, n) is Some && old_self.first_from(n, x as nat) is None {
                            None
                        } else {
                            old_self.at(x, n)
                        } by {
                            if x != a && 0 <= x < self.map@.len() {
                                assert(self.map@[x] == before.map@[x]);
                            }
                            if n == name@ && 0 <= x < a {
                                old_self.lemma_first_from_none(n, a as nat, x);
                            }
                            if n == name@ && x > a {
                                old_self.lemma_first_from_mono(n, (a + 1) as nat, x as nat);
                            }
                        }
                    }
                    return true;
                },
                None => {
                    proof {
                        lemma_bucket_get_index(self.map@[a as int]@, name@);
                    }
                },
            }
            a = a + 1;
        }
        proof {
            assert forall|x: int, n: Seq<char>| n == name@ && 0 <= x < self.map@.len() implies #[trigger] old_self.at(x, n) is None by {
                old_self.lemma_first_from_none(n, a as nat, x);
            }
        }
        false
    }

    /// No label named `name` among the first `k` arities: none at any arity below `k`.
    pub proof fn lemma_first_from_none(&self, name: Seq<char>, k: nat, x: int)
        requires
            self.first_from(name, k) is None,
            0 <= x < k,
        ensures
            self.at(x, name) is None,
        decreases k,
    {
        if x < k - 1 {
            self.lemma_first_from_none(name, (k - 1) as nat, x);
        }
    }

    pub proof fn lemma_first_from_mono(&self, name: Seq<char>, k1: nat, k2: nat)
        requires
            k1 <= k2,
            self.first_from(name, k1) is Some,
        ensures
            self.first_from(name, k2) == self.first_from(name, k1),
        decreases k2 - k1,
    {
        if k1 < k2 {
            self.lemma_first_from_mono(name, k1, (k2 - 1) as nat);
        }
    }

    /// The labels that need `arity` arguments.
    pub fn get_n_ary_labels(&self, arity: usize) -> (r: &Vec<(String, Label)>)
        requires
            arity < self.map@.len(),
        ensures
            *r == self.map@[arity as int],
    {
        &self.map[arity]
    }

    /// The label named `name` among those that need `arity` arguments.
    pub fn get(&self, arity: usize, name: String) -> (r: Option<&Label>)
        requires
            self.wf(),
            arity < self.map@.len(),
        ensures
            r is Some <==> self.at(arity as int, name@) is Some,
            r matches Some(x) ==> self.at(arity as int, name@) == Some(*x),
    {
        proof { assert(bucket_wf(self.map@[arity as int]@)); }
        match find_name(&self.map[arity], &name) {
            Some(i) => {
                proof { lemma_bucket_get_at(self.map@[arity as int]@, i as int); }
                Some(&self.map[arity][i].1)
            },
            None => {
                proof { lemma_bucket_get_index(self.map@[arity as int]@, name@); }
                None
            },
        }
    }

    /// The label named `name` with the fewest arguments.
    pub fn get_by_name(&self, name: &String) -> (r: Option<&Label>)
        requires
            self.wf(),
        ensures
            r is Some <==> self.lookup(name@) is Some,
            r matches Some(x) ==> self.lookup(name@) == Some(*x),
    {
        let mut a: usize = 0;
        while a < self.map.len()
            invariant
                self.wf(),
                a <= self.map@.len(),
                self.first_from(name@, a as nat) is None,
            decreases self.map@.len() - a,
        {
            proof { assert(bucket_wf(self.map@[a as int]@)); }
            match find_name(&self.map[a], name) {
                Some(i) => {
                    proof {
                        lemma_bucket_get_at(self.map@[a as int]@, i as int);
                        self.lemma_first_from_mono(name@, (a + 1) as nat, self.map@.len());
                    }
                    return Some(&self.map[a][i].1);
                },
                None => {
                    proof { lemma_bucket_get_index(self.map@[a as int]@, name@); }
                },
            }
            a = a + 1;
        }
        None
    }

    /// The type of the label named `name` with the fewest arguments.
    pub fn get_type(&self, name: &str) -> (r: Option<&Type>)
        requires
            self.wf(),
        ensures
            r is Some <==> self.lookup(name@) is Some,
            r matches Some(x) ==> self.lookup(name@)->0.label_type == *x,
    {
        let n = lit(name);
        match self.get_by_name(&n) {
            Some(l) => Some(&l.label_type),
            None => None,
        }
    }

    /// Adds every assignment of a module as a label of its annotated type; an assignment
    /// without one is an error.
    pub fn consume_from_module(&mut self, ast: &AST, module: usize) -> (r: Result<(), TypeError>)
        requires
            old(self).wf(),
            ast.wf(),
            module < ast.vec@.len(),
            ast.vec@[module as int].t == ASTNodeType::Module,
        ensures
            final(self).wf(),
            r is Ok <==> forall|k: int| 0 <= k < ast.module_assigns(module as int).len() ==> ast.vec@[#[trigger] ast.module_assigns(module as int)[k] as int].type_assignment is Some,
    {
        let assigns = ast.get_assigns_map(module);
        // every assignment is annotated, or this is the error
        proof { ast.lemma_node(module as int); }
        let cs = &ast.vec[module].children;
        let mut k: usize = 0;
        while k < cs.len()
            invariant
                self.wf(),
                ast.wf(),
                module < ast.vec@.len(),
                ast.vec@[module as int].t == ASTNodeType::Module,
                *cs == ast.vec@[module as int].children,
                k <= cs@.len(),
                forall|j: int| 0 <= j < k ==> ast.vec@[#[trigger] cs@[j] as int].type_assignment is Some,
            decreases cs@.len() - k,
        {
            proof { assert(ast.node_ok(module as int)); assert(ast.child_ok(module as int, cs@[k as int])); }
            let a = cs[k];
            if ast.vec[a].type_assignment.is_none() {
                let mut e = lit("Label ");
                let name = ast.get_assignee(a);
                crate::text::push_str(&mut e, name.as_str());
                crate::text::push_str(&mut e, " has no type assignment");
                return Err(TypeError { e, line: ast.vec[a].line, col: ast.vec[a].col });
            }
            k = k + 1;
        }
        let mut i: usize = 0;
        while i < assigns.len()
            invariant
                self.wf(),
                ast.wf(),
                module < ast.vec@.len(),
                i <= assigns@.len(),
                forall|x: int| 0 <= x < assigns@.len() ==> {
                    let (nm, a) = #[trigger] assigns@[x];
                    &&& ast.module_assigns(module as int).contains(a)
                },
                forall|j: int| 0 <= j < cs@.len() ==> ast.vec@[#[trigger] cs@[j] as int].type_assignment is Some,
                *cs == ast.vec@[module as int].children,
                ast.vec@[module as int].t == ASTNodeType::Module,
            decreases assigns@.len() - i,
        {
            let (name, a) = &assigns[i];
            proof {
                let j = choose|j: int| 0 <= j < cs@.len() && cs@[j] == *a;
                assert(ast.vec@[cs@[j] as int].type_assignment is Some);
                assert(ast.node_ok(module as int));
                assert(ast.child_ok(module as int, cs@[j]));
            }
            let t = ast.vec[*a].type_assignment.as_ref().unwrap().deep_clone();
            if t.arity_below(usize::MAX - 1) {
                self.add(name.clone(), t);
            }
            i = i + 1;
        }
        Ok(())
    }

    /// All the names of the inbuilt functions.
    pub fn get_starting_bindings_map() -> (r: Vec<String>)
        ensures
            forall|k: int| 0 <= k < r@.len() ==> is_inbuilt_name(#[trigger] r@[k]@),
            forall|n: Seq<char>| is_inbuilt_name(n) ==> names_has(r@, n),
    {
        let t = LabelTable::new();
        let mut out: Vec<String> = Vec::new();
        let mut a: usize = 0;
        while a < t.map.len()
            invariant
                t.wf(),
                forall|a: int, n: Seq<char>| inbuilt_at(a, n) is None ==> #[trigger] t.at(a, n) is None,
                a <= t.map@.len(),
                forall|k: int| 0 <= k < out@.len() ==> is_inbuilt_name(#[trigger] out@[k]@),
                forall|x: int, y: int| 0 <= x < a && 0 <= y < t.map@[x]@.len() ==> names_has(out@, #[trigger] t.map@[x]@[y].0@),
            decreases t.map@.len() - a,
        {
            let b = &t.map[a];
            proof { assert(bucket_wf(b@)); }
            let mut i: usize = 0;
            while i < b.len()
                invariant
                    t.wf(),
                    forall|a: int, n: Seq<char>| inbuilt_at(a, n) is None ==> #[trigger] t.at(a, n) is None,
                    a < t.map@.len(),
                    *b == t.map@[a as int],
                    bucket_wf(b@),
                    i <= b@.len(),
                    forall|k: int| 0 <= k < out@.len() ==> is_inbuilt_name(#[trigger] out@[k]@),
                    forall|x: int, y: int| 0 <= x < a && 0 <= y < t.map@[x]@.len() ==> names_has(out@, #[trigger] t.map@[x]@[y].0@),
                    forall|y: int| 0 <= y < i ==> names_has(out@, #[trigger] b@[y].0@),
                decreases b@.len() - i,
            {
                let ghost before = out@;
                proof {
                    lemma_bucket_get_at(b@, i as int);
                    assert(t.at(a as int, b@[i as int].0@) is Some);
                    assert(inbuilt_at(a as int, b@[i as int].0@) is Some);
                }
                out.push(b[i].0.clone());
                proof {
                    assert(out@[before.len() as int]@ == b@[i as int].0@);
                    assert forall|n: Seq<char>| names_has(before, n) implies names_has(out@, n) by {
                        let w = choose|w: int| 0 <= w < before.len() && before[w]@ == n;
                        assert(out@[w] == before[w]);
                    }
                }
                i = i + 1;
            }
            a = a + 1;
        }
        proof {
            assert forall|n: Seq<char>| is_inbuilt_name(n) implies names_has(out@, n) by {
                let x = choose|x: int| #[trigger] inbuilt_at(x, n) is Some;
                assert(t.at(x, n) is Some);
                lemma_bucket_get_index(t.map@[x]@, n);
                let y = choose|y: int| 0 <= y < t.map@[x]@.len() && t.map@[x]@[y].0@ == n;
                assert(names_has(out@, t.map@[x]@[y].0@));
            }
        }
        out
    }

    /// The label named `name` with the most arguments, among the first `k` arities.
    pub open spec fn last_from(&self, name: Seq<char>, k: nat) -> Option<Label>
        decreases k,
    {
        if k == 0 {
            None
        } else if self.at(k - 1, name) is Some {
            self.at(k - 1, name)
        } else {
            self.last_from(name, (k - 1) as nat)
        }
    }

    /// What a walk over the arities below `a`, then the first `i` labels of arity `a`,
    /// keeps for `name`: the label seen last.
    spec fn seen_up_to(&self, name: Seq<char>, a: int, i: int) -> Option<Label> {
        let b = self.map@[a]@.take(i);
        if bucket_get(b, name) is Some {
            bucket_get(b, name)
        } else {
            self.last_from(name, a as nat)
        }
    }

    /// Each label's name with its type; a name at several arities keeps the type of the
    /// one with the most arguments. Each name occurs once.
    pub fn get_type_map(&self) -> (r: Vec<(String, Type)>)
        requires
            self.wf(),
        ensures
            forall|k: int| 0 <= k < r@.len() ==> self.has_label_type(#[trigger] r@[k].0@, r@[k].1@),
            forall|k: int| 0 <= k < r@.len() ==> {
                let l = self.last_from(#[trigger] r@[k].0@, self.map@.len());
                l is Some && l->0.label_type@ == r@[k].1@
            },
            forall|n: Seq<char>| #[trigger] self.last_from(n, self.map@.len()) is Some ==> exists|k: int| 0 <= k < r@.len() && #[trigger] r@[k].0@ == n,
            forall|k1: int, k2: int| 0 <= k1 < k2 < r@.len() ==> r@[k1].0@ != r@[k2].0@,
    {
        let mut out: Vec<(String, Type)> = Vec::new();
        let mut a: usize = 0;
        while a < self.map.len()
            invariant
                self.wf(),
                a <= self.map@.len(),
                forall|k: int| 0 <= k < out@.len() ==> self.has_label_type(#[trigger] out@[k].0@, out@[k].1@),
                forall|k: int| 0 <= k < out@.len() ==> {
                    let l = self.last_from(#[trigger] out@[k].0@, a as nat);
                    l is Some && l->0.label_type@ == out@[k].1@
                },
                forall|n: Seq<char>| #[trigger] self.last_from(n, a as nat) is Some ==> exists|k: int| 0 <= k < out@.len() && #[trigger] out@[k].0@ == n,
                forall|k1: int, k2: int| 0 <= k1 < k2 < out@.len() ==> out@[k1].0@ != out@[k2].0@,
            decreases self.map@.len() - a,
        {
            let b = &self.map[a];
            proof {
                assert(bucket_wf(self.map@[a as int]@));
                assert(b@.take(0) =~= Seq::<(String, Label)>::empty());
            }
            let mut i: usize = 0;
            while i < b.len()
                invariant
                    self.wf(),
                    a < self.map@.len(),
                    *b == self.map@[a as int],
                    bucket_wf(b@),
                    i <= b@.len(),
                    forall|k: int| 0 <= k < out@.len() ==> self.has_label_type(#[trigger] out@[k].0@, out@[k].1@),
                    forall|k: int| 0 <= k < out@.len() ==> {
                        let l = self.seen_up_to(#[trigger] out@[k].0@, a as int, i as int);
                        l is Some && l->0.label_type@ == out@[k].1@
                    },
                    forall|n: Seq<char>| #[trigger] self.seen_up_to(n, a as int, i as int) is Some ==> exists|k: int| 0 <= k < out@.len() && #[trigger] out@[k].0@ == n,
                    forall|k1: int, k2: int| 0 <= k1 < k2 < out@.len() ==> out@[k1].0@ != out@[k2].0@,
                decreases b@.len() - i,
            {
                let name = b[i].0.clone();
                let t = b[i].1.label_type.deep_clone();
                let ghost before = out@;
                proof {
                    lemma_bucket_get_at(b@, i as int);
                    assert(self.at(a as int, name@) == Some(b@[i as int].1));
                    assert(self.has_label_type(name@, t@));
                    assert(b@.take(i + 1).drop_last() =~= b@.take(i as int));
                    assert forall|n: Seq<char>| #[trigger] self.seen_up_to(n, a as int, i + 1) == if n == name@ {
                        Some(b@[i as int].1)
                    } else {
                        self.seen_up_to(n, a as int, i as int)
                    } by {}
                }
                let pos = find_type_name(&out, &name);
                match pos {
                    Some(p) => {
                        out.set(p, (name, t));
                        proof {
                            assert forall|n: Seq<char>| #[trigger] self.seen_up_to(n, a as int, i + 1) is Some implies exists|k: int| 0 <= k < out@.len() && #[trigger] out@[k].0@ == n by {
                                if n != name@ {
                                    let k = choose|k: int| 0 <= k < before.len() && #[trigger] before[k].0@ == n;
                                    assert(out@[k].0@ == n);
                                } else {
                                    assert(out@[p as int].0@ == n);
                                }
                            }
                        }
                    },
                    None => {
                        out.push((name, t));
                        proof {
                            assert forall|n: Seq<char>| #[trigger] self.seen_up_to(n, a as int, i + 1) is Some implies exists|k: int| 0 <= k < out@.len() && #[trigger] out@[k].0@ == n by {
                                if n != name@ {
                                    let k = choose|k: int| 0 <= k < before.len() && #[trigger] before[k].0@ == n;
                                    assert(out@[k].0@ == n);
                                } else {
                                    assert(out@[before.len() as int].0@ == n);
                                }
                            }
                        }
                    },
                }
                i = i + 1;
            }
            proof {
                assert(b@.take(b@.len() as int) =~= b@);
                assert forall|n: Seq<char>| #[trigger] self.last_from(n, (a + 1) as nat) == self.seen_up_to(n, a as int, b@.len() as int) by {}
            }
            a = a + 1;
        }
        out
    }

    /// Adds a group of inbuilts; the table then holds what `entries_from(entries@, 0, ..)`
    /// names (the group's first entry is added last, so it wins a repeated name).
    fn add_group(&mut self, entries: Vec<(&str, usize, Inbuilt, Type)>)
        requires
            old(self).wf(),
        ensures
            final(self).wf(),
            forall|a: int, n: Seq<char>| entries_from(entries@, 0, a, n) is None ==> #[trigger] final(self).at(a, n) == old(self).at(a, n),
            forall|a: int, n: Seq<char>| #[trigger] entries_from(entries@, 0, a, n) matches Some(e) ==> holds_inbuilt(final(self).at(a, n), a, e),
    {
        let ghost old_self = *self;
        let ghost all = entries@;
        let mut entries = entries;
        while entries.len() > 0
            invariant
                self.wf(),
                entries@ =~= all.take(entries@.len() as int),
                entries@.len() <= all.len(),
                forall|a: int, n: Seq<char>| entries_from(all, entries@.len() as int, a, n) is None ==> #[trigger] self.at(a, n) == old_self.at(a, n),
                forall|a: int, n: Seq<char>| #[trigger] entries_from(all, entries@.len() as int, a, n) matches Some(e) ==> holds_inbuilt(self.at(a, n), a, e),
            decreases entries@.len(),
        {
            let ghost j = entries@.len() - 1;
            let ghost before = *self;
            let (name, arity, func, t) = entries.pop().unwrap();
            proof { assert(all[j] == (name, arity, func, t)); }
            self.add_inbuilt(name, arity, func, t);
            proof {
                assert forall|a: int, n: Seq<char>| entries_from(all, j, a, n) is None implies #[trigger] self.at(a, n) == old_self.at(a, n) by {
                    assert(entries_from(all, j + 1, a, n) is None);
                }
                assert forall|a: int, n: Seq<char>| #[trigger] entries_from(all, j, a, n) is Some implies holds_inbuilt(self.at(a, n), a, entries_from(all, j, a, n)->0) by {
                    if !(a == arity && n == name@) {
                        assert(entries_from(all, j, a, n) == entries_from(all, j + 1, a, n));
                    }
                }
            }
        }
        proof { assert(entries@.len() == 0); }
    }

    fn populate_inbuilts(&mut self)
        requires
            old(self).wf(),
            forall|a: int, n: Seq<char>| #[trigger] old(self).at(a, n) is None,
        ensures
            final(self).wf(),
            forall|a: int, n: Seq<char>| inbuilt_at(a, n) is None ==> #[trigger] final(self).at(a, n) is None,
            forall|a: int, n: Seq<char>| #[trigger] inbuilt_at(a, n) matches Some(e) ==> holds_inbuilt(final(self).at(a, n), a, e),
    {
        let a = lit("a");
        let b = lit("b");
        let id_type = Type::fa(vec![a.clone()], Type::f(Type::tv(a.clone()), Type::tv(a.clone())));
        let const1_type = Type::fa(vec![a.clone(), b.clone()], Type::f(Type::tv(a.clone()), Type::f(Type::tv(b.clone()), Type::tv(a.clone()))));
        let const2_type = Type::fa(vec![a.clone(), b.clone()], Type::f(Type::tv(a.clone()), Type::f(Type::tv(b.clone()), Type::tv(b.clone()))));
        let if_type = Type::fa(vec![a.clone()], Type::f(Type::bool(), Type::f(Type::tv(a.clone()), Type::f(Type::tv(a.clone()), Type::tv(a.clone())))));
        proof {
            assert(names(seq![a]) =~= seq!["a"@]);
            assert(names(seq![a, b]) =~= seq!["a"@, "b"@]);
            reveal_with_fuel(tv_fa, 3);
        }
        let control = vec![
            ("id", 1, Inbuilt::Id, id_type),
            ("const1", 0, Inbuilt::Const1, const1_type),
            ("const2", 0, Inbuilt::Const2, const2_type),
            ("if", 1, Inbuilt::If, if_type),
            ("neg", 1, Inbuilt::IntNeg, Type::f(Type::int64(), Type::int64())),
            ("negf", 1, Inbuilt::FloatNeg, Type::f(Type::float64(), Type::float64())),
        ];
        proof {
            assert forall|a: int, n: Seq<char>| #[trigger] entries_from(control@, 0, a, n) == control_at(a, n) by {
                reveal_with_fuel(entries_from, 7);
            }
        }
        self.add_group(control);
        let float = vec![
            ("addf", 2, Inbuilt::FloatAdd, binary_type(Type::float64(), Type::float64())),
            ("subf", 2, Inbuilt::FloatSub, binary_type(Type::float64(), Type::float64())),
            ("mulf", 2, Inbuilt::FloatMul, binary_type(Type::float64(), Type::float64())),
            ("divf", 2, Inbuilt::FloatDiv, binary_type(Type::float64(), Type::float64())),
            ("eqf", 2, Inbuilt::FloatEq, binary_type(Type::float64(), Type::bool())),
            ("ltef", 2, Inbuilt::FloatLte, binary_type(Type::float64(), Type::bool())),
            ("ltf", 2, Inbuilt::FloatLt, binary_type(Type::float64(), Type::bool())),
            ("gtef", 2, Inbuilt::FloatGte, binary_type(Type::float64(), Type::bool())),
            ("gtf", 2, Inbuilt::FloatGt, binary_type(Type::float64(), Type::bool())),
        ];
        proof {
            assert forall|a: int, n: Seq<char>| #[trigger] entries_from(float@, 0, a, n) == float_at(a, n) by {
                reveal_with_fuel(entries_from, 10);
            }
        }
        self.add_group(float);
        let compare = vec![
            ("eq", 2, Inbuilt::IntEq, binary_type(Type::int64(), Type::bool())),
            ("lte", 2, Inbuilt::IntLte, binary_type(Type::int64(), Type::bool())),
            ("lt", 2, Inbuilt::IntLt, binary_type(Type::int64(), Type::bool())),
            ("gte", 2, Inbuilt::IntGte, binary_type(Type::int64(), Type::bool())),
            ("gt", 2, Inbuilt::IntGt, binary_type(Type::int64(), Type::bool())),
            ("==", 2, Inbuilt::IntEq, binary_type(Type::int64(), Type::bool())),
            ("<=", 2, Inbuilt::IntLte, binary_type(Type::int64(), Type::bool())),
            ("<", 2, Inbuilt::IntLt, binary_type(Type::int64(), Type::bool())),
            (">=", 2, Inbuilt::IntGte, binary_type(Type::int64(), Type::bool())),
            (">", 2, Inbuilt::IntGt, binary_type(Type::int64(), Type::bool())),
        ];
        proof {
            assert forall|a: int, n: Seq<char>| #[trigger] entries_from(compare@, 0, a, n) == compare_at(a, n) by {
                reveal_with_fuel(entries_from, 11);
            }
        }
        self.add_group(compare);
        let arith = vec![
            ("add", 2, Inbuilt::IntAdd, binary_type(Type::int64(), Type::int64())),
            ("sub", 2, Inbuilt::IntSub, binary_type(Type::int64(), Type::int64())),
            ("mul", 2, Inbuilt::IntMul, binary_type(Type::int64(), Type::int64())),
            ("div", 2, Inbuilt::IntDiv, binary_type(Type::int64(), Type::int64())),
            ("+", 2, Inbuilt::IntAdd, binary_type(Type::int64(), Type::int64())),
            ("-", 2, Inbuilt::IntSub, binary_type(Type::int64(), Type::int64())),
            ("*", 2, Inbuilt::IntMul, binary_type(Type::int64(), Type::int64())),
            ("/", 2, Inbuilt::IntDiv, binary_type(Type::int64(), Type::int64())),
        ];
        proof {
            assert forall|a: int, n: Seq<char>| #[trigger] entries_from(arith@, 0, a, n) == arith_at(a, n) by {
                reveal_with_fuel(entries_from, 9);
            }
        }
        self.add_group(arith);
    }
}

/// `a -> a -> r`.
pub fn binary_type(a: Type, r: Type) -> (t: Type)
    ensures
        t@ == TypeV::Function(Box::new(a@), Box::new(TypeV::Function(Box::new(a@), Box::new(r@)))),
{
    let a2 = a.deep_clone();
    Type::f(a, Type::f(a2, r))
}

/// Where the name `s` stands in a bucket.
pub fn find_name(v: &Vec<(String, Label)>, s: &String) -> (r: Option<usize>)
    ensures
        r matches Some(x) ==> x < v@.len() && v@[x as int].0@ == s@,
        r is None ==> forall|y: int| 0 <= y < v@.len() ==> v@[y].0@ != s@,
{
    let mut x: usize = 0;
    while x < v.len()
        invariant
            x <= v@.len(),
            forall|y: int| 0 <= y < x ==> v@[y].0@ != s@,
        decreases v@.len() - x,
    {
        if str_eq(&v[x].0, s) {
            return Some(x);
        }
        x = x + 1;
    }
    None
}

/// Where the name `s` stands in a list of named types.
pub fn find_type_name(v: &Vec<(String, Type)>, s: &String) -> (r: Option<usize>)
    ensures
        r matches Some(x) ==> x < v@.len() && v@[x as int].0@ == s@,
        r is None ==> forall|y: int| 0 <= y < v@.len() ==> v@[y].0@ != s@,
{
    let mut x: usize = 0;
    while x < v.len()
        invariant
            x <= v@.len(),
            forall|y: int| 0 <= y < x ==> v@[y].0@ != s@,
        decreases v@.len() - x,
    {
        if str_eq(&v[x].0, s) {
            return Some(x);
        }
        x = x + 1;
    }
    None
}

impl Type {
    /// Whether the type has fewer than `n` arrows along its result side.
    pub fn arity_below(&self, n: usize) -> (r: bool)
        ensures
            r == (tv_arity(self@) < n),
        decreases self,
    {
        match self {
            Type::Function(_, b) => n > 0 && (&**b).arity_below(n - 1),
            Type::Forall(_, b) => (&**b).arity_below(n),
            _ => n > 0,
        }
    }
}

} // verus!
