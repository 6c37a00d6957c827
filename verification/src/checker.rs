//! Bidirectional type checking with existential type variables: subtyping, instantiation
//! of existentials, checking an expression against a type and synthesising its type.
//!
//! Each step takes a budget of nested steps; a derivation nested deeper than the budget
//! is reported as a type error (`MAX_DEPTH` for the public entry points).
use vstd::prelude::*;

use crate::ast::{lit_kind, lit_type, ASTNodeType, AST};
use crate::context::{
    ctx_add_before_existential, ctx_append, ctx_before_assignment, ctx_before_item, ctx_existential,
    ctx_set_existential, ctx_subst, ctx_type_assignment, err_at, err_view, ex_t, opt_type_view, radd, radd_err,
    type_error, Context, ContextItem, CtxV, ErrV, ItemV,
};
use crate::labels::{inbuilt_table, lemma_new_inbuilt_table, LabelTable};
use crate::parser::TypeMap;
use crate::types::names_has;
use crate::text::{char_is_lowercase, first_char, lit, push_str, unicode_lowercase};
use crate::types::{tv_binds, tv_contains_existential, tv_fa, tv_str, tv_foralls, tv_is_monotype, tv_strip_foralls, tv_subst, Type, TypeError, TypeV};

verus! {

/// How deep the steps of one check may nest.
pub const MAX_DEPTH: u64 = 100000;

/// `a` is a subtype of `b` in context `c`, with `f` nested steps left: the resulting
/// context, or `None` where it is not.
pub open spec fn sub_spec(c: CtxV, a: TypeV, b: TypeV, f: nat) -> Option<CtxV>
    decreases f, 0nat,
{
    if f == 0 {
        None
    } else {
        let g = (f - 1) as nat;
        match (a, b) {
            (TypeV::Alias(_, x), _) => sub_spec(c, *x, b, g),
            (_, TypeV::Alias(_, y)) => sub_spec(c, a, *y, g),
            (TypeV::Existential(e), _) => if b == TypeV::Existential(e) {
                Some(c)
            } else if tv_contains_existential(b, e) || e > usize::MAX {
                None
            } else {
                inst_l(c, e as usize, b, g)
            },
            (_, TypeV::Existential(e)) => if tv_contains_existential(a, e) || e > usize::MAX {
                None
            } else {
                inst_r(c, e as usize, a, g)
            },
            (TypeV::TypeVariable(x), TypeV::TypeVariable(y)) => if x == y { Some(c) } else { None },
            (TypeV::Primitive(x), TypeV::Primitive(y)) => if x == y { Some(c) } else { None },
            (TypeV::Unit, TypeV::Unit) => Some(c),
            (TypeV::Forall(v, t), _) => if c.next_exid >= usize::MAX || tv_binds(*t, v) {
                None
            } else {
                let ex = (c.next_exid + 1) as usize;
                let c1 = ctx_append(ctx_append(c, ItemV::Marker(ex)), ItemV::Existential(ex, None));
                match sub_spec(c1, tv_subst(*t, v, ex_t(ex)), b, g) {
                    None => None,
                    Some(p) => Some(ctx_before_item(p, ItemV::Marker(ex))),
                }
            },
            (_, TypeV::Forall(v, t)) => match sub_spec(ctx_append(c, ItemV::TypeVariable(v)), a, *t, g) {
                None => None,
                Some(p) => Some(ctx_before_item(p, ItemV::TypeVariable(v))),
            },
            (TypeV::Function(a1, a2), TypeV::Function(b1, b2)) => match sub_spec(c, *b1, *a1, g) {
                None => None,
                Some(p1) => sub_spec(p1, ctx_subst(p1, *a2), ctx_subst(p1, *b2), g),
            },
            (TypeV::Product(p1, p2), TypeV::Product(q1, q2)) => match sub_spec(c, *p1, *q1, g) {
                None => None,
                Some(c1) => sub_spec(c1, *p2, *q2, g),
            },
            (TypeV::Union(n1, u1), TypeV::Union(n2, u2)) => if u1.len() != u2.len() || n1 != n2 {
                None
            } else {
                sub_seq(c, u1, u2, u1.len(), g)
            },
            _ => None,
        }
    }
}

/// The first `k` arguments of two unions, each a subtype of the other's, in order.
pub open spec fn sub_seq(c: CtxV, u1: Seq<TypeV>, u2: Seq<TypeV>, k: nat, f: nat) -> Option<CtxV>
    decreases f, k + 1,
{
    if k == 0 || k > u1.len() || k > u2.len() {
        Some(c)
    } else {
        match sub_seq(c, u1, u2, (k - 1) as nat, f) {
            None => None,
            Some(ck) => sub_spec(ck, u1[k - 1], u2[k - 1], f),
        }
    }
}

/// Once a prefix of the arguments fails, so does every longer one.
pub proof fn lemma_sub_seq_none(c: CtxV, u1: Seq<TypeV>, u2: Seq<TypeV>, k: nat, j: nat, f: nat)
    requires
        k <= j <= u1.len(),
        u1.len() == u2.len(),
        sub_seq(c, u1, u2, k, f) is None,
    ensures
        sub_seq(c, u1, u2, j, f) is None,
    decreases j,
{
    if j > k {
        lemma_sub_seq_none(c, u1, u2, k, (j - 1) as nat, f);
    }
}

/// Solving the existential `ex` so that it is a subtype of `b`.
pub open spec fn inst_l(c: CtxV, ex: usize, b: TypeV, f: nat) -> Option<CtxV>
    decreases f, 0nat,
{
    if f == 0 {
        None
    } else {
        let g = (f - 1) as nat;
        match b {
            TypeV::Existential(e2) => if e2 > usize::MAX {
                None
            } else {
                Some(ctx_set_existential(c, e2 as usize, ex_t(ex)))
            },
            TypeV::Function(from, to) => if c.next_exid >= usize::MAX - 2 {
                None
            } else {
                let a1n = (c.next_exid + 1) as usize;
                let a2n = (c.next_exid + 2) as usize;
                let c1 = ctx_set_existential(
                    ctx_add_before_existential(
                        ctx_add_before_existential(c, ex, ItemV::Existential(a1n, None)),
                        ex,
                        ItemV::Existential(a2n, None),
                    ),
                    ex,
                    TypeV::Function(Box::new(ex_t(a1n)), Box::new(ex_t(a2n))),
                );
                match inst_r(c1, a1n, *from, g) {
                    None => None,
                    Some(p1) => inst_l(p1, a2n, ctx_subst(p1, *to), g),
                }
            },
            TypeV::Forall(v, t) => match inst_l(ctx_append(c, ItemV::TypeVariable(v)), ex, *t, g) {
                None => None,
                Some(p) => Some(ctx_before_item(p, ItemV::TypeVariable(v))),
            },
            _ => if !tv_is_monotype(b) {
                None
            } else {
                let ok = match ctx_existential(c.items, ex) {
                    Some(Some(ea)) => sub_spec(c, ea, b, g) is Some,
                    _ => true,
                };
                if ok {
                    Some(ctx_set_existential(c, ex, b))
                } else {
                    None
                }
            },
        }
    }
}

/// Solving the existential `ex` so that `a` is a subtype of it.
pub open spec fn inst_r(c: CtxV, ex: usize, a: TypeV, f: nat) -> Option<CtxV>
    decreases f, 0nat,
{
    if f == 0 {
        None
    } else {
        let g = (f - 1) as nat;
        match a {
            TypeV::Existential(e2) => if e2 > usize::MAX {
                None
            } else {
                Some(ctx_set_existential(c, e2 as usize, ex_t(ex)))
            },
            TypeV::Function(from, to) => if c.next_exid >= usize::MAX - 2 {
                None
            } else {
                let a1n = (c.next_exid + 1) as usize;
                let a2n = (c.next_exid + 2) as usize;
                let c1 = ctx_set_existential(
                    ctx_add_before_existential(
                        ctx_add_before_existential(c, ex, ItemV::Existential(a2n, None)),
                        ex,
                        ItemV::Existential(a1n, None),
                    ),
                    ex,
                    TypeV::Function(Box::new(ex_t(a1n)), Box::new(ex_t(a2n))),
                );
                match inst_l(c1, a1n, *from, g) {
                    None => None,
                    Some(p1) => inst_r(p1, a2n, ctx_subst(p1, *to), g),
                }
            },
            TypeV::Forall(v, t) => if c.next_exid >= usize::MAX || tv_binds(*t, v) {
                None
            } else {
                let ne = (c.next_exid + 1) as usize;
                let c1 = ctx_append(ctx_append(c, ItemV::Marker(ne)), ItemV::Existential(ne, None));
                match inst_r(c1, ex, tv_subst(*t, v, ex_t(ne)), g) {
                    None => None,
                    Some(p) => Some(ctx_before_item(p, ItemV::Marker(ne))),
                }
            },
            _ => if !tv_is_monotype(a) {
                None
            } else {
                let ok = match ctx_existential(c.items, ex) {
                    Some(Some(ea)) => sub_spec(c, ea, a, g) is Some,
                    _ => true,
                };
                if ok {
                    Some(ctx_set_existential(c, ex, a))
                } else {
                    None
                }
            },
        }
    }
}

/// The message of a derivation nested too deeply.
pub open spec fn depth_msg() -> Seq<char> {
    "Type checking nested too deeply"@
}

/// The message for an existential that would contain itself.
pub open spec fn itself_msg(c: CtxV, a: TypeV, b: TypeV) -> Seq<char> {
    "Cannot instantiate "@ + tv_str(ctx_subst(c, b), false) + " to the type "@ + tv_str(ctx_subst(c, a), false)
        + ": the type contains itself"@
}

/// Why `a` is not a subtype of `b` in context `c` (see `sub_spec`): the message of the
/// first step that fails.
pub open spec fn sub_err(c: CtxV, a: TypeV, b: TypeV, f: nat) -> Seq<char>
    decreases f, 0nat,
{
    if f == 0 {
        depth_msg()
    } else {
        let g = (f - 1) as nat;
        match (a, b) {
            (TypeV::Alias(_, x), _) => sub_err(c, *x, b, g),
            (_, TypeV::Alias(_, y)) => sub_err(c, a, *y, g),
            (TypeV::Existential(e), _) => if tv_contains_existential(b, e) || e > usize::MAX {
                itself_msg(c, a, b)
            } else {
                inst_l_err(c, e as usize, b, g)
            },
            (_, TypeV::Existential(e)) => if tv_contains_existential(a, e) || e > usize::MAX {
                itself_msg(c, a, b)
            } else {
                inst_r_err(c, e as usize, a, g)
            },
            (TypeV::TypeVariable(x), TypeV::TypeVariable(y)) => x + " is not a subtype of "@ + y,
            (TypeV::Primitive(_), TypeV::Primitive(_)) => tv_str(a, false) + " is not a subtype of "@ + tv_str(b, false),
            (TypeV::Unit, TypeV::Unit) => Seq::empty(),
            (TypeV::Forall(v, t), _) => if c.next_exid >= usize::MAX || tv_binds(*t, v) {
                depth_msg()
            } else {
                let ex = (c.next_exid + 1) as usize;
                let c1 = ctx_append(ctx_append(c, ItemV::Marker(ex)), ItemV::Existential(ex, None));
                sub_err(c1, tv_subst(*t, v, ex_t(ex)), b, g)
            },
            (_, TypeV::Forall(v, t)) => sub_err(ctx_append(c, ItemV::TypeVariable(v)), a, *t, g),
            (TypeV::Function(a1, a2), TypeV::Function(b1, b2)) => match sub_spec(c, *b1, *a1, g) {
                None => sub_err(c, *b1, *a1, g),
                Some(p1) => sub_err(p1, ctx_subst(p1, *a2), ctx_subst(p1, *b2), g),
            },
            (TypeV::Product(p1, p2), TypeV::Product(q1, q2)) => match sub_spec(c, *p1, *q1, g) {
                None => sub_err(c, *p1, *q1, g),
                Some(c1) => sub_err(c1, *p2, *q2, g),
            },
            (TypeV::Product(_, _), _) => "Type "@ + tv_str(b, false) + " is not a subtype of product "@ + tv_str(a, false),
            (_, TypeV::Product(_, _)) => "Type "@ + tv_str(a, false) + " is not a subtype of product "@ + tv_str(b, false),
            (TypeV::Union(n1, u1), TypeV::Union(n2, u2)) => if u1.len() != u2.len() || n1 != n2 {
                "Type "@ + tv_str(a, false) + " is not a subtype of union "@ + tv_str(b, false)
            } else {
                sub_seq_err(c, u1, u2, u1.len(), g)
            },
            _ => "Subtype failiure"@,
        }
    }
}

/// Why the first `k` arguments of two unions fail (see `sub_seq`).
pub open spec fn sub_seq_err(c: CtxV, u1: Seq<TypeV>, u2: Seq<TypeV>, k: nat, f: nat) -> Seq<char>
    decreases f, k + 1,
{
    if k == 0 || k > u1.len() || k > u2.len() {
        Seq::empty()
    } else {
        match sub_seq(c, u1, u2, (k - 1) as nat, f) {
            None => sub_seq_err(c, u1, u2, (k - 1) as nat, f),
            Some(ck) => sub_err(ck, u1[k - 1], u2[k - 1], f),
        }
    }
}

/// Once a prefix of the arguments fails, every longer one fails for the same reason.
pub proof fn lemma_sub_seq_err(c: CtxV, u1: Seq<TypeV>, u2: Seq<TypeV>, k: nat, j: nat, f: nat)
    requires
        k <= j <= u1.len(),
        u1.len() == u2.len(),
        sub_seq(c, u1, u2, k, f) is None,
    ensures
        sub_seq_err(c, u1, u2, j, f) == sub_seq_err(c, u1, u2, k, f),
    decreases j,
{
    if j > k {
        lemma_sub_seq_none(c, u1, u2, k, (j - 1) as nat, f);
        lemma_sub_seq_err(c, u1, u2, k, (j - 1) as nat, f);
    }
}

/// Why the existential `ex` cannot be solved below `b` (see `inst_l`).
pub open spec fn inst_l_err(c: CtxV, ex: usize, b: TypeV, f: nat) -> Seq<char>
    decreases f, 0nat,
{
    if f == 0 {
        depth_msg()
    } else {
        let g = (f - 1) as nat;
        match b {
            TypeV::Existential(_) => Seq::empty(),
            TypeV::Function(from, to) => if c.next_exid >= usize::MAX - 2 {
                depth_msg()
            } else {
                let a1n = (c.next_exid + 1) as usize;
                let a2n = (c.next_exid + 2) as usize;
                let c1 = ctx_set_existential(
                    ctx_add_before_existential(
                        ctx_add_before_existential(c, ex, ItemV::Existential(a1n, None)),
                        ex,
                        ItemV::Existential(a2n, None),
                    ),
                    ex,
                    TypeV::Function(Box::new(ex_t(a1n)), Box::new(ex_t(a2n))),
                );
                match inst_r(c1, a1n, *from, g) {
                    None => inst_r_err(c1, a1n, *from, g),
                    Some(p1) => inst_l_err(p1, a2n, ctx_subst(p1, *to), g),
                }
            },
            TypeV::Forall(v, t) => inst_l_err(ctx_append(c, ItemV::TypeVariable(v)), ex, *t, g),
            _ => if !tv_is_monotype(b) {
                "Failed Substitution"@
            } else {
                match ctx_existential(c.items, ex) {
                    Some(Some(ea)) => sub_err(c, ea, b, g),
                    _ => Seq::empty(),
                }
            },
        }
    }
}

/// Why the existential `ex` cannot be solved above `a` (see `inst_r`).
pub open spec fn inst_r_err(c: CtxV, ex: usize, a: TypeV, f: nat) -> Seq<char>
    decreases f, 0nat,
{
    if f == 0 {
        depth_msg()
    } else {
        let g = (f - 1) as nat;
        match a {
            TypeV::Existential(_) => Seq::empty(),
            TypeV::Function(from, to) => if c.next_exid >= usize::MAX - 2 {
                depth_msg()
            } else {
                let a1n = (c.next_exid + 1) as usize;
                let a2n = (c.next_exid + 2) as usize;
                let c1 = ctx_set_existential(
                    ctx_add_before_existential(
                        ctx_add_before_existential(c, ex, ItemV::Existential(a2n, None)),
                        ex,
                        ItemV::Existential(a1n, None),
                    ),
                    ex,
                    TypeV::Function(Box::new(ex_t(a1n)), Box::new(ex_t(a2n))),
                );
                match inst_l(c1, a1n, *from, g) {
                    None => inst_l_err(c1, a1n, *from, g),
                    Some(p1) => inst_r_err(p1, a2n, ctx_subst(p1, *to), g),
                }
            },
            TypeV::Forall(v, t) => if c.next_exid >= usize::MAX || tv_binds(*t, v) {
                depth_msg()
            } else {
                let ne = (c.next_exid + 1) as usize;
                let c1 = ctx_append(ctx_append(c, ItemV::Marker(ne)), ItemV::Existential(ne, None));
                inst_r_err(c1, ex, tv_subst(*t, v, ex_t(ne)), g)
            },
            _ => if !tv_is_monotype(a) {
                "Failed Substitution"@
            } else {
                match ctx_existential(c.items, ex) {
                    Some(Some(ea)) => sub_err(c, ea, a, g),
                    _ => Seq::empty(),
                }
            },
        }
    }
}

/// The error of a derivation that would nest too deeply or run out of identifiers.
fn depth_error() -> (r: String)
    ensures
        r@ == "Type checking nested too deeply"@,
{
    lit("Type checking nested too deeply")
}

/// Whether `a` is a subtype of `b` (see `sub`); the context after solving existentials.
pub fn subtype_steps(c: Context, a: &Type, b: &Type, fuel: u64) -> (r: Result<Context, String>)
    ensures
        r is Ok <==> sub_spec(c@, a@, b@, fuel as nat) is Some,
        r matches Ok(c2) ==> sub_spec(c@, a@, b@, fuel as nat) == Some(c2@),
        r matches Err(m) ==> m@ == sub_err(c@, a@, b@, fuel as nat),
    decreases fuel,
{
    if fuel == 0 {
        return Err(depth_error());
    }
    let g = fuel - 1;
    match (a, b) {
        (Type::Alias(_, x), _) => subtype_steps(c, &**x, b, g),
        (_, Type::Alias(_, y)) => subtype_steps(c, a, &**y, g),
        (Type::Existential(ex), _) => {
            let same = match b {
                Type::Existential(ex2) => *ex == *ex2,
                _ => false,
            };
            if same {
                return Ok(c);
            }
            if b.contains_existential(*ex) {
                let mut msg = lit("Cannot instantiate ");
                push_str(&mut msg, c.substitute(b).to_string().as_str());
                push_str(&mut msg, " to the type ");
                push_str(&mut msg, c.substitute(a).to_string().as_str());
                push_str(&mut msg, ": the type contains itself");
                return Err(msg);
            }
            instantiate_l(c, *ex, b, g)
        },
        (_, Type::Existential(ex)) => {
            if a.contains_existential(*ex) {
                let mut msg = lit("Cannot instantiate ");
                push_str(&mut msg, c.substitute(b).to_string().as_str());
                push_str(&mut msg, " to the type ");
                push_str(&mut msg, c.substitute(a).to_string().as_str());
                push_str(&mut msg, ": the type contains itself");
                return Err(msg);
            }
            instantiate_r(c, *ex, a, g)
        },
        (Type::TypeVariable(x), Type::TypeVariable(y)) => {
            if crate::text::str_eq(x, y) {
                Ok(c)
            } else {
                let mut msg = x.clone();
                push_str(&mut msg, " is not a subtype of ");
                push_str(&mut msg, y.as_str());
                Err(msg)
            }
        },
        (Type::Primitive(x), Type::Primitive(y)) => {
            if *x == *y {
                Ok(c)
            } else {
                let mut msg = a.to_string();
                push_str(&mut msg, " is not a subtype of ");
                push_str(&mut msg, b.to_string().as_str());
                Err(msg)
            }
        },
        (Type::Unit, Type::Unit) => Ok(c),
        (Type::Forall(v, t), _) => {
            if c.next_exid >= usize::MAX || (&**t).binds_type_variable(v) {
                return Err(depth_error());
            }
            let exst = c.get_next_existential_identifier();
            let c1 = c.append(ContextItem::Marker(exst)).append(ContextItem::Existential(exst, None));
            let new_body = match (&**t).substitute_type_variable(v, &Type::Existential(exst)) {
                Ok(nb) => nb,
                Err(e) => return Err(e),
            };
            let pred = subtype_steps(c1, &new_body, b, g)?;
            Ok(pred.get_before_item(ContextItem::Marker(exst)))
        },
        (_, Type::Forall(v, t)) => {
            let c1 = c.append(ContextItem::TypeVariable(v.clone()));
            let pred = subtype_steps(c1, a, &**t, g)?;
            Ok(pred.get_before_item(ContextItem::TypeVariable(v.clone())))
        },
        (Type::Function(a1, a2), Type::Function(b1, b2)) => {
            let pred1 = subtype_steps(c, &**b1, &**a1, g)?;
            let a2s = pred1.substitute(&**a2);
            let b2s = pred1.substitute(&**b2);
            subtype_steps(pred1, &a2s, &b2s, g)
        },
        (Type::Product(p1, p2), Type::Product(q1, q2)) => {
            let c1 = subtype_steps(c, &**p1, &**q1, g)?;
            subtype_steps(c1, &**p2, &**q2, g)
        },
        (Type::Product(_, _), _) => {
            let mut msg = lit("Type ");
            push_str(&mut msg, b.to_string().as_str());
            push_str(&mut msg, " is not a subtype of product ");
            push_str(&mut msg, a.to_string().as_str());
            Err(msg)
        },
        (_, Type::Product(_, _)) => {
            let mut msg = lit("Type ");
            push_str(&mut msg, a.to_string().as_str());
            push_str(&mut msg, " is not a subtype of product ");
            push_str(&mut msg, b.to_string().as_str());
            Err(msg)
        },
        (Type::Union(n1, u1), Type::Union(n2, u2)) => {
            proof {
                crate::types::lemma_union_view(*a);
                crate::types::lemma_union_view(*b);
            }
            if u1.len() != u2.len() || !crate::text::str_eq(n1, n2) {
                let mut msg = lit("Type ");
                push_str(&mut msg, a.to_string().as_str());
                push_str(&mut msg, " is not a subtype of union ");
                push_str(&mut msg, b.to_string().as_str());
                return Err(msg);
            }
            let ghost v1 = crate::types::views(u1@);
            let ghost v2 = crate::types::views(u2@);
            assert(sub_spec(c@, a@, b@, fuel as nat) == sub_seq(c@, v1, v2, v1.len(), g as nat));
            assert(sub_err(c@, a@, b@, fuel as nat) == sub_seq_err(c@, v1, v2, v1.len(), g as nat));
            let mut cur = c;
            let mut k: usize = 0;
            while k < u1.len()
                invariant
                    k <= u1@.len(),
                    u1@.len() == u2@.len(),
                    v1 == crate::types::views(u1@),
                    v2 == crate::types::views(u2@),
                    sub_seq(c@, v1, v2, k as nat, g as nat) == Some(cur@),
                    fuel > 0,
                    g == fuel - 1,
                    v1.len() == u1@.len(),
                    sub_spec(c@, a@, b@, fuel as nat) == sub_seq(c@, v1, v2, v1.len(), g as nat),
                    sub_err(c@, a@, b@, fuel as nat) == sub_seq_err(c@, v1, v2, v1.len(), g as nat),
                decreases u1@.len() - k,
            {
                match subtype_steps(cur, &u1[k], &u2[k], g) {
                    Ok(next) => {
                        cur = next;
                    },
                    Err(e) => {
                        proof {
                            lemma_sub_seq_none(c@, v1, v2, (k + 1) as nat, v1.len(), g as nat);
                            lemma_sub_seq_err(c@, v1, v2, (k + 1) as nat, v1.len(), g as nat);
                            assert(v1[k as int] == u1@[k as int]@);
                            assert(v2[k as int] == u2@[k as int]@);
                            assert(sub_seq_err(c@, v1, v2, (k + 1) as nat, g as nat) == e@);
                            assert(sub_err(c@, a@, b@, fuel as nat) == sub_seq_err(c@, v1, v2, v1.len(), g as nat));
                        }
                        return Err(e);
                    },
                }
                k = k + 1;
            }
            Ok(cur)
        },
        _ => Err(lit("Subtype failiure")),
    }
}

/// Solves the existential `exst` so that it is a subtype of `b` (see `inst_l`).
fn instantiate_l(c: Context, exst: usize, b: &Type, fuel: u64) -> (r: Result<Context, String>)
    ensures
        r is Ok <==> inst_l(c@, exst, b@, fuel as nat) is Some,
        r matches Ok(c2) ==> inst_l(c@, exst, b@, fuel as nat) == Some(c2@),
        r matches Err(m) ==> m@ == inst_l_err(c@, exst, b@, fuel as nat),
    decreases fuel,
{
    if fuel == 0 {
        return Err(depth_error());
    }
    let g = fuel - 1;
    match b {
        Type::Existential(exst2) => Ok(c.set_existential_definition(*exst2, Type::Existential(exst))),
        Type::Function(from, to) => {
            if c.next_exid >= usize::MAX - 2 {
                return Err(depth_error());
            }
            let a1n = c.get_next_existential_identifier();
            let a2n = a1n + 1;
            let c1 = c.add_before_existential(exst, ContextItem::Existential(a1n, None))
                .add_before_existential(exst, ContextItem::Existential(a2n, None))
                .set_existential_definition(exst, Type::f(Type::Existential(a1n), Type::Existential(a2n)));
            let pred1 = instantiate_r(c1, a1n, &**from, g)?;
            let to_subst = pred1.substitute(&**to);
            instantiate_l(pred1, a2n, &to_subst, g)
        },
        Type::Forall(v, t) => {
            let new_c = c.append(ContextItem::TypeVariable(v.clone()));
            let pred = instantiate_l(new_c, exst, &**t, g)?;
            Ok(pred.get_before_item(ContextItem::TypeVariable(v.clone())))
        },
        _ => {
            if !b.is_monotype() {
                return Err(lit("Failed Substitution"));
            }
            match c.get_existential(exst) {
                Some(Some(ea)) => {
                    let cc = c.copy();
                    subtype_steps(cc, &ea, b, g)?;
                },
                _ => {},
            }
            Ok(c.set_existential_definition(exst, b.deep_clone()))
        },
    }
}

/// Solves the existential `exst` so that `a` is a subtype of it (see `inst_r`).
fn instantiate_r(c: Context, exst: usize, a: &Type, fuel: u64) -> (r: Result<Context, String>)
    ensures
        r is Ok <==> inst_r(c@, exst, a@, fuel as nat) is Some,
        r matches Ok(c2) ==> inst_r(c@, exst, a@, fuel as nat) == Some(c2@),
        r matches Err(m) ==> m@ == inst_r_err(c@, exst, a@, fuel as nat),
    decreases fuel,
{
    if fuel == 0 {
        return Err(depth_error());
    }
    let g = fuel - 1;
    match a {
        Type::Existential(exst2) => Ok(c.set_existential_definition(*exst2, Type::Existential(exst))),
        Type::Function(from, to) => {
            if c.next_exid >= usize::MAX - 2 {
                return Err(depth_error());
            }
            let a1n = c.get_next_existential_identifier();
            let a2n = a1n + 1;
            let c1 = c.add_before_existential(exst, ContextItem::Existential(a2n, None))
                .add_before_existential(exst, ContextItem::Existential(a1n, None))
                .set_existential_definition(exst, Type::f(Type::Existential(a1n), Type::Existential(a2n)));
            let pred1 = instantiate_l(c1, a1n, &**from, g)?;
            let to_subst = pred1.substitute(&**to);
            instantiate_r(pred1, a2n, &to_subst, g)
        },
        Type::Forall(v, t) => {
            if c.next_exid >= usize::MAX || (&**t).binds_type_variable(v) {
                return Err(depth_error());
            }
            let next_ext = c.get_next_existential_identifier();
            let c1 = c.append(ContextItem::Marker(next_ext)).append(ContextItem::Existential(next_ext, None));
            let t2 = match (&**t).substitute_type_variable(v, &Type::Existential(next_ext)) {
                Ok(x) => x,
                Err(e) => return Err(e),
            };
            let pred1 = instantiate_r(c1, exst, &t2, g)?;
            Ok(pred1.get_before_item(ContextItem::Marker(next_ext)))
        },
        _ => {
            if !a.is_monotype() {
                return Err(lit("Failed Substitution"));
            }
            match c.get_existential(exst) {
                Some(Some(ea)) => {
                    let cc = c.copy();
                    subtype_steps(cc, &ea, a, g)?;
                },
                _ => {},
            }
            Ok(c.set_existential_definition(exst, a.deep_clone()))
        },
    }
}

/// Checking the expression `e` against the type `expected` in context `c` (`pat`: `e` is a
/// pattern, whose unbound lower case names are bound), with `f` nested steps left.
pub open spec fn check_spec(c: CtxV, expected: TypeV, ast: &AST, e: int, pat: bool, f: nat) -> Option<CtxV>
    decreases f, 0nat,
{
    if f == 0 || !(ast.wf() && ast.valid(e)) {
        None
    } else {
        let g = (f - 1) as nat;
        let t = ast.vec@[e].t;
        match expected {
            TypeV::Unit => Some(c),
            TypeV::Alias(_, x) => check_spec(c, *x, ast, e, pat, g),
            TypeV::Forall(v, x) => if tv_binds(*x, v) {
                None
            } else {
                match check_spec(ctx_append(c, ItemV::TypeVariable(v)), tv_subst(*x, v, TypeV::TypeVariable(v)), ast, e, pat, g) {
                    None => None,
                    Some(p) => Some(ctx_before_item(p, ItemV::TypeVariable(v))),
                }
            },
            _ => if expected is Function && t == ASTNodeType::Abstraction {
                match radd(c, *expected->Function_0, ast, ast.child(e, 0) as int) {
                    None => None,
                    Some((c1, before)) => match check_spec(c1, *expected->Function_1, ast, ast.child(e, 1) as int, pat, g) {
                        None => None,
                        Some(p) => Some(ctx_before_assignment(p, before)),
                    },
                }
            } else if expected is Product && t == ASTNodeType::Pair {
                match check_spec(c, *expected->Product_0, ast, ast.child(e, 0) as int, pat, g) {
                    None => None,
                    Some(c1) => check_spec(c1, *expected->Product_1, ast, ast.child(e, 1) as int, pat, g),
                }
            } else {
                match synth_spec(c, ast, e, pat, g) {
                    None => None,
                    Some((st, c1)) => sub_spec(c1, ctx_subst(c1, st), ctx_subst(c1, expected), g),
                }
            },
        }
    }
}

/// The type synthesised for `e` in context `c`, with the context after it.
pub open spec fn synth_spec(c: CtxV, ast: &AST, e: int, pat: bool, f: nat) -> Option<(TypeV, CtxV)>
    decreases f, 0nat,
{
    if f == 0 || !(ast.wf() && ast.valid(e)) {
        None
    } else {
        let g = (f - 1) as nat;
        let n = ast.vec@[e];
        if n.t == ASTNodeType::Identifier {
            let var = ast.value_of(e);
            match ctx_type_assignment(c, var) {
                Some(Some(t)) => Some((t, c)),
                Some(None) => None,
                None => if c.next_exid >= usize::MAX || var.len() == 0 {
                    None
                } else {
                    let ne = (c.next_exid + 1) as usize;
                    if pat && unicode_lowercase(var[0]) {
                        Some((ex_t(ne), ctx_append(ctx_append(c, ItemV::Existential(ne, None)), ItemV::TypeAssignment(var, Some(ex_t(ne))))))
                    } else if var == seq!['_'] {
                        Some((ex_t(ne), ctx_append(c, ItemV::Existential(ne, None))))
                    } else {
                        None
                    }
                },
            }
        } else if n.t == ASTNodeType::Pair {
            match synth_spec(c, ast, ast.child(e, 0) as int, pat, g) {
                None => None,
                Some((t1, c1)) => match synth_spec(c1, ast, ast.child(e, 1) as int, pat, g) {
                    None => None,
                    Some((t2, c2)) => Some((
                        tv_fa(tv_foralls(t1), tv_fa(tv_foralls(t2), TypeV::Product(Box::new(tv_strip_foralls(t1)), Box::new(tv_strip_foralls(t2))))),
                        c2,
                    )),
                },
            }
        } else if n.t == ASTNodeType::Literal {
            if n.info is Some && lit_kind(n.info->0.tt) {
                Some((lit_type(n.info->0.tt), c))
            } else {
                None
            }
        } else if n.t == ASTNodeType::Match {
            if pat || n.children@.len() == 0 {
                None
            } else {
                let u = ast.child(e, 0) as int;
                let first = match ast.vec@[u].type_assignment {
                    Some(t) => match check_spec(c, t@, ast, u, false, g) {
                        None => None,
                        Some(c1) => Some((t@, c1)),
                    },
                    None => synth_spec(c, ast, u, false, g),
                };
                match first {
                    None => None,
                    Some((ut, c1)) => if c1.next_exid >= usize::MAX {
                        None
                    } else {
                        let x = (c1.next_exid + 1) as usize;
                        let c2 = ctx_append(c1, ItemV::Existential(x, None));
                        match cases_spec(c2, ut, x, ast, e, ((n.children@.len() - 1) / 2) as nat, g) {
                            None => None,
                            Some(c3) => match ctx_existential(c3.items, x) {
                                Some(Some(t)) => Some((t, c3)),
                                _ => None,
                            },
                        }
                    },
                }
            }
        } else if n.t == ASTNodeType::Abstraction {
            if c.next_exid >= usize::MAX - 2 || n.children@.len() < 2 {
                None
            } else {
                let ne = (c.next_exid + 1) as usize;
                let ne2 = (c.next_exid + 2) as usize;
                let c1 = ctx_append(ctx_append(c, ItemV::Existential(ne, None)), ItemV::Existential(ne2, None));
                let var = ast.child(e, 0) as int;
                let c2 = match ast.vec@[var].type_assignment {
                    Some(t) => ctx_set_existential(c1, ne, t@),
                    None => c1,
                };
                match radd(c2, ex_t(ne), ast, var) {
                    None => None,
                    Some((c3, before)) => match check_spec(c3, ex_t(ne2), ast, ast.child(e, 1) as int, false, g) {
                        None => None,
                        Some(c4) => Some((
                            TypeV::Function(Box::new(ex_t(ne)), Box::new(ex_t(ne2))),
                            ctx_before_assignment(c4, before),
                        )),
                    },
                }
            }
        } else if n.t == ASTNodeType::Application && n.children@.len() >= 2 {
            let func = ast.child(e, 0) as int;
            match synth_spec(c, ast, func, pat, g) {
                None => None,
                Some((ft, fc)) => synth_app_spec(fc, ctx_subst(fc, ft), ast, ast.child(e, 1) as int, pat, g),
            }
        } else {
            None
        }
    }
}

/// The first `k` cases of the match `e`: each pattern checked against the inspected type
/// `ut`, then its expression against the existential `x` of the whole match.
pub open spec fn cases_spec(c: CtxV, ut: TypeV, x: usize, ast: &AST, e: int, k: nat, f: nat) -> Option<CtxV>
    decreases f, k + 1,
{
    if k == 0 {
        Some(c)
    } else {
        match cases_spec(c, ut, x, ast, e, (k - 1) as nat, f) {
            None => None,
            Some(ck) => match check_spec(ck, ut, ast, ast.child(e, 2 * k - 1) as int, true, f) {
                None => None,
                Some(pc) => check_spec(pc, ex_t(x), ast, ast.child(e, 2 * k as int) as int, false, f),
            },
        }
    }
}

/// The error of applying `f`, of type `t`, to `expr`, where the head type fixes it: a
/// product, union or primitive cannot be applied; an alias, type variable or the unit
/// type is not understood; the position is the argument's. Other errors come from the
/// steps the application takes.
pub open spec fn app_error(t: TypeV, ast: &AST, f: int, expr: int, e: TypeError) -> bool {
    &&& (t is Product || t is Union || t is Primitive) ==> e.e@ == "Cannot apply "@ + ast.sugar(f, false) + " (of type "@
        + tv_str(t, false) + ") to "@ + ast.sugar(expr, false)
    &&& (t is Alias || t is TypeVariable || t is Unit) ==> e.e@
        == "App synthesis error. Failed to understand the application of type "@ + tv_str(t, false) + " to expression "@
        + ast.sugar(expr, false)
    &&& (t is Product || t is Union || t is Primitive || t is Alias || t is TypeVariable || t is Unit) ==> (e.line
        == ast.vec@[expr].line && e.col == ast.vec@[expr].col)
}

/// The type of applying a function of type `t` to the argument `e`.
pub open spec fn synth_app_spec(c: CtxV, t: TypeV, ast: &AST, e: int, pat: bool, f: nat) -> Option<(TypeV, CtxV)>
    decreases f, 0nat,
{
    if f == 0 {
        None
    } else {
        let g = (f - 1) as nat;
        match t {
            TypeV::Forall(v, body) => if c.next_exid >= usize::MAX || tv_binds(*body, v) {
                None
            } else {
                let ne = (c.next_exid + 1) as usize;
                synth_app_spec(ctx_append(c, ItemV::Existential(ne, None)), tv_subst(*body, v, ex_t(ne)), ast, e, pat, g)
            },
            TypeV::Function(from, to) => match check_spec(c, *from, ast, e, pat, g) {
                None => None,
                Some(p) => Some((*to, p)),
            },
            TypeV::Existential(var) => if var > usize::MAX || c.next_exid >= usize::MAX - 2 {
                None
            } else {
                let v = var as usize;
                let a1n = (c.next_exid + 1) as usize;
                let a2n = (c.next_exid + 2) as usize;
                let c1 = ctx_set_existential(
                    ctx_add_before_existential(
                        ctx_add_before_existential(c, v, ItemV::Existential(a2n, None)),
                        v,
                        ItemV::Existential(a1n, None),
                    ),
                    v,
                    TypeV::Function(Box::new(ex_t(a1n)), Box::new(ex_t(a2n))),
                );
                match check_spec(c1, ex_t(a1n), ast, e, pat, g) {
                    None => None,
                    Some(c2) => Some((ex_t(a2n), c2)),
                }
            },
            _ => None,
        }
    }
}

pub proof fn lemma_cases_none(c: CtxV, ut: TypeV, x: usize, ast: &AST, e: int, k: nat, j: nat, f: nat)
    requires
        k <= j,
        cases_spec(c, ut, x, ast, e, k, f) is None,
    ensures
        cases_spec(c, ut, x, ast, e, j, f) is None,
    decreases j,
{
    if j > k {
        lemma_cases_none(c, ut, x, ast, e, k, (j - 1) as nat, f);
    }
}

/// A type error agrees with a stated one. `None` stands where the error is one that a
/// failed assignment left in the context (the context's value does not hold it).
pub open spec fn err_agrees(x: TypeError, o: Option<ErrV>) -> bool {
    o matches Some(v) ==> err_view(x) == v
}

/// Why `e` does not check against `expected` (see `check_spec`).
pub open spec fn check_err(c: CtxV, expected: TypeV, ast: &AST, e: int, pat: bool, f: nat) -> Option<ErrV>
    decreases f, 0nat,
{
    if f == 0 || !(ast.wf() && ast.valid(e)) {
        Some(err_at(depth_msg(), ast, e))
    } else {
        let g = (f - 1) as nat;
        let t = ast.vec@[e].t;
        match expected {
            TypeV::Unit => None,
            TypeV::Alias(_, x) => check_err(c, *x, ast, e, pat, g),
            TypeV::Forall(v, x) => if tv_binds(*x, v) {
                Some(err_at("Duplicate forall: "@ + v, ast, e))
            } else {
                check_err(ctx_append(c, ItemV::TypeVariable(v)), tv_subst(*x, v, TypeV::TypeVariable(v)), ast, e, pat, g)
            },
            _ => if expected is Function && t == ASTNodeType::Abstraction {
                match radd(c, *expected->Function_0, ast, ast.child(e, 0) as int) {
                    None => Some(radd_err(c, *expected->Function_0, ast, ast.child(e, 0) as int)),
                    Some((c1, _)) => check_err(c1, *expected->Function_1, ast, ast.child(e, 1) as int, pat, g),
                }
            } else if expected is Product && t == ASTNodeType::Pair {
                match check_spec(c, *expected->Product_0, ast, ast.child(e, 0) as int, pat, g) {
                    None => check_err(c, *expected->Product_0, ast, ast.child(e, 0) as int, pat, g),
                    Some(c1) => check_err(c1, *expected->Product_1, ast, ast.child(e, 1) as int, pat, g),
                }
            } else {
                match synth_spec(c, ast, e, pat, g) {
                    None => synth_err(c, ast, e, pat, g),
                    Some((st, c1)) => {
                        let a = ctx_subst(c1, st);
                        let b = ctx_subst(c1, expected);
                        Some(err_at(
                            "Cannot figure out how "@ + tv_str(a, false) + " could be subtype of "@ + tv_str(b, false) + ": "@
                                + sub_err(c1, a, b, g),
                            ast,
                            e,
                        ))
                    },
                }
            },
        }
    }
}

/// Why no type is synthesised for `e` (see `synth_spec`).
pub open spec fn synth_err(c: CtxV, ast: &AST, e: int, pat: bool, f: nat) -> Option<ErrV>
    decreases f, 0nat,
{
    if f == 0 || !(ast.wf() && ast.valid(e)) {
        Some(err_at(depth_msg(), ast, e))
    } else {
        let g = (f - 1) as nat;
        let n = ast.vec@[e];
        if n.t == ASTNodeType::Identifier {
            let var = ast.value_of(e);
            match ctx_type_assignment(c, var) {
                Some(_) => None,
                None => if var.len() == 0 {
                    Some(err_at("Empty identifier"@, ast, e))
                } else if c.next_exid >= usize::MAX {
                    Some(err_at(depth_msg(), ast, e))
                } else {
                    Some(err_at("Unbound identifier not in pattern: "@ + var, ast, e))
                },
            }
        } else if n.t == ASTNodeType::Pair {
            match synth_spec(c, ast, ast.child(e, 0) as int, pat, g) {
                None => synth_err(c, ast, ast.child(e, 0) as int, pat, g),
                Some((_, c1)) => synth_err(c1, ast, ast.child(e, 1) as int, pat, g),
            }
        } else if n.t == ASTNodeType::Literal {
            Some(err_at("Literal node with bad token"@, ast, e))
        } else if n.t == ASTNodeType::Match {
            if pat {
                Some(err_at("A match cannot stand in a pattern"@, ast, e))
            } else if n.children@.len() == 0 {
                None
            } else {
                let u = ast.child(e, 0) as int;
                let first = match ast.vec@[u].type_assignment {
                    Some(t) => match check_spec(c, t@, ast, u, false, g) {
                        None => None,
                        Some(c1) => Some((t@, c1)),
                    },
                    None => synth_spec(c, ast, u, false, g),
                };
                match first {
                    None => match ast.vec@[u].type_assignment {
                        Some(t) => check_err(c, t@, ast, u, false, g),
                        None => synth_err(c, ast, u, false, g),
                    },
                    Some((ut, c1)) => if c1.next_exid >= usize::MAX {
                        Some(err_at(depth_msg(), ast, e))
                    } else {
                        let x = (c1.next_exid + 1) as usize;
                        let c2 = ctx_append(c1, ItemV::Existential(x, None));
                        let k = ((n.children@.len() - 1) / 2) as nat;
                        match cases_spec(c2, ut, x, ast, e, k, g) {
                            None => cases_err(c2, ut, x, ast, e, k, g),
                            Some(_) => Some(err_at("Match failed"@, ast, e)),
                        }
                    },
                }
            }
        } else if n.t == ASTNodeType::Abstraction {
            if c.next_exid >= usize::MAX - 2 {
                Some(err_at(depth_msg(), ast, e))
            } else if n.children@.len() < 2 {
                None
            } else {
                let ne = (c.next_exid + 1) as usize;
                let ne2 = (c.next_exid + 2) as usize;
                let c1 = ctx_append(ctx_append(c, ItemV::Existential(ne, None)), ItemV::Existential(ne2, None));
                let var = ast.child(e, 0) as int;
                let c2 = match ast.vec@[var].type_assignment {
                    Some(t) => ctx_set_existential(c1, ne, t@),
                    None => c1,
                };
                match radd(c2, ex_t(ne), ast, var) {
                    None => Some(radd_err(c2, ex_t(ne), ast, var)),
                    Some((c3, _)) => check_err(c3, ex_t(ne2), ast, ast.child(e, 1) as int, false, g),
                }
            }
        } else if n.t == ASTNodeType::Application && n.children@.len() >= 2 {
            let func = ast.child(e, 0) as int;
            match synth_spec(c, ast, func, pat, g) {
                None => synth_err(c, ast, func, pat, g),
                Some((ft, fc)) => synth_app_err(fc, ctx_subst(fc, ft), ast, func, ast.child(e, 1) as int, pat, g),
            }
        } else {
            Some(err_at("Non expression"@, ast, e))
        }
    }
}

/// Why the first `k` cases of the match `e` fail (see `cases_spec`).
pub open spec fn cases_err(c: CtxV, ut: TypeV, x: usize, ast: &AST, e: int, k: nat, f: nat) -> Option<ErrV>
    decreases f, k + 1,
{
    if k == 0 {
        None
    } else {
        match cases_spec(c, ut, x, ast, e, (k - 1) as nat, f) {
            None => cases_err(c, ut, x, ast, e, (k - 1) as nat, f),
            Some(ck) => match check_spec(ck, ut, ast, ast.child(e, 2 * k - 1) as int, true, f) {
                None => check_err(ck, ut, ast, ast.child(e, 2 * k - 1) as int, true, f),
                Some(pc) => check_err(pc, ex_t(x), ast, ast.child(e, 2 * k as int) as int, false, f),
            },
        }
    }
}

/// Once a prefix of the cases fails, every longer one fails for the same reason.
pub proof fn lemma_cases_err(c: CtxV, ut: TypeV, x: usize, ast: &AST, e: int, k: nat, j: nat, f: nat)
    requires
        k <= j,
        cases_spec(c, ut, x, ast, e, k, f) is None,
    ensures
        cases_err(c, ut, x, ast, e, j, f) == cases_err(c, ut, x, ast, e, k, f),
    decreases j,
{
    if j > k {
        lemma_cases_none(c, ut, x, ast, e, k, (j - 1) as nat, f);
        lemma_cases_err(c, ut, x, ast, e, k, (j - 1) as nat, f);
    }
}

/// Why applying `fnode`, of type `t`, to `e` fails (see `synth_app_spec`); the position
/// is the argument's.
pub open spec fn synth_app_err(c: CtxV, t: TypeV, ast: &AST, fnode: int, e: int, pat: bool, f: nat) -> Option<ErrV>
    decreases f, 0nat,
{
    if f == 0 {
        Some(err_at(depth_msg(), ast, e))
    } else {
        let g = (f - 1) as nat;
        match t {
            TypeV::Forall(v, body) => if c.next_exid >= usize::MAX {
                Some(err_at(depth_msg(), ast, e))
            } else if tv_binds(*body, v) {
                Some(err_at("Duplicate forall: "@ + v, ast, e))
            } else {
                let ne = (c.next_exid + 1) as usize;
                synth_app_err(ctx_append(c, ItemV::Existential(ne, None)), tv_subst(*body, v, ex_t(ne)), ast, fnode, e, pat, g)
            },
            TypeV::Function(from, _) => check_err(c, *from, ast, e, pat, g),
            TypeV::Existential(var) => if var > usize::MAX || c.next_exid >= usize::MAX - 2 {
                Some(err_at(depth_msg(), ast, e))
            } else {
                let v = var as usize;
                let a1n = (c.next_exid + 1) as usize;
                let a2n = (c.next_exid + 2) as usize;
                let c1 = ctx_set_existential(
                    ctx_add_before_existential(
                        ctx_add_before_existential(c, v, ItemV::Existential(a2n, None)),
                        v,
                        ItemV::Existential(a1n, None),
                    ),
                    v,
                    TypeV::Function(Box::new(ex_t(a1n)), Box::new(ex_t(a2n))),
                );
                check_err(c1, ex_t(a1n), ast, e, pat, g)
            },
            TypeV::Product(_, _) | TypeV::Union(_, _) | TypeV::Primitive(_) => Some(err_at(
                "Cannot apply "@ + ast.sugar(fnode, false) + " (of type "@ + tv_str(t, false) + ") to "@ + ast.sugar(e, false),
                ast,
                e,
            )),
            _ => Some(err_at(
                "App synthesis error. Failed to understand the application of type "@ + tv_str(t, false)
                    + " to expression "@ + ast.sugar(e, false),
                ast,
                e,
            )),
        }
    }
}

/// Checks `expr` against `expected` (see `check_spec`).
#[verifier::loop_isolation(false)]
pub fn check_steps(c: Context, expected: &Type, ast: &AST, expr: usize, is_pattern: bool, fuel: u64) -> (r: Result<Context, TypeError>)
    requires
        ast.wf(),
        expr < ast.vec@.len(),
    ensures
        r is Ok <==> check_spec(c@, expected@, ast, expr as int, is_pattern, fuel as nat) is Some,
        r matches Ok(c2) ==> check_spec(c@, expected@, ast, expr as int, is_pattern, fuel as nat) == Some(c2@),
        r matches Err(x) ==> err_agrees(x, check_err(c@, expected@, ast, expr as int, is_pattern, fuel as nat)),
    decreases fuel, 1nat,
{
    if fuel == 0 {
        return Err(type_error(depth_error(), ast, expr));
    }
    let g = fuel - 1;
    proof { ast.lemma_node(expr as int); }
    let t = ast.vec[expr].t;
    match expected {
        Type::Unit => Ok(c),
        Type::Alias(_, x) => check_steps(c, &**x, ast, expr, is_pattern, g),
        Type::Forall(v, x) => {
            let body = match (&**x).substitute_type_variable(v, &Type::TypeVariable(v.clone())) {
                Ok(b) => b,
                Err(e) => return Err(type_error(e, ast, expr)),
            };
            let c1 = c.append(ContextItem::TypeVariable(v.clone()));
            let pred = check_steps(c1, &body, ast, expr, is_pattern, g)?;
            Ok(pred.get_before_item(ContextItem::TypeVariable(v.clone())))
        },
        Type::Function(from, to) if t == ASTNodeType::Abstraction => {
            let var = ast.get_abstr_var(expr);
            let (c1, before) = c.recurse_add_to_context(&**from, ast, var)?;
            let body = ast.get_abstr_expr(expr);
            let pred = check_steps(c1, &**to, ast, body, is_pattern, g)?;
            Ok(pred.get_before_assignment(before))
        },
        Type::Product(p1, p2) if t == ASTNodeType::Pair => {
            let a = ast.get_first(expr);
            let b = ast.get_second(expr);
            let c1 = check_steps(c, &**p1, ast, a, is_pattern, g)?;
            check_steps(c1, &**p2, ast, b, is_pattern, g)
        },
        _ => {
            let (synth_t, c1) = synth_steps(c, ast, expr, is_pattern, g)?;
            let a = c1.substitute(&synth_t);
            let b = c1.substitute(expected);
            match subtype_steps(c1, &a, &b, g) {
                Ok(nc) => Ok(nc),
                Err(e) => {
                    let mut msg = lit("Cannot figure out how ");
                    push_str(&mut msg, a.to_string().as_str());
                    push_str(&mut msg, " could be subtype of ");
                    push_str(&mut msg, b.to_string().as_str());
                    push_str(&mut msg, ": ");
                    push_str(&mut msg, e.as_str());
                    Err(type_error(msg, ast, expr))
                },
            }
        },
    }
}

/// Synthesises the type of `expr` (see `synth_spec`).
#[verifier::loop_isolation(false)]
pub fn synth_steps(c: Context, ast: &AST, expr: usize, is_pattern: bool, fuel: u64) -> (r: Result<(Type, Context), TypeError>)
    requires
        ast.wf(),
        expr < ast.vec@.len(),
    ensures
        r is Ok <==> synth_spec(c@, ast, expr as int, is_pattern, fuel as nat) is Some,
        r matches Ok((t, c2)) ==> synth_spec(c@, ast, expr as int, is_pattern, fuel as nat) == Some((t@, c2@)),
        r matches Err(x) ==> err_agrees(x, synth_err(c@, ast, expr as int, is_pattern, fuel as nat)),
    decreases fuel, 1nat,
{
    if fuel == 0 {
        return Err(type_error(depth_error(), ast, expr));
    }
    let g = fuel - 1;
    proof { ast.lemma_node(expr as int); }
    let node = &ast.vec[expr];
    if node.t == ASTNodeType::Identifier {
        let var = node.get_value();
        match c.get_type_assignment(&var) {
            Some(Ok(t)) => Ok((t, c)),
            Some(Err(e)) => Err(e),
            None => {
                let fc = match first_char(&var) {
                    Some(ch) => ch,
                    None => return Err(type_error(lit("Empty identifier"), ast, expr)),
                };
                if c.next_exid >= usize::MAX {
                    return Err(type_error(depth_error(), ast, expr));
                }
                let ne = c.get_next_existential_identifier();
                if is_pattern && char_is_lowercase(fc) {
                    let c1 = c.append(ContextItem::Existential(ne, None))
                        .append(ContextItem::TypeAssignment(var.clone(), Ok(Type::Existential(ne))));
                    Ok((Type::Existential(ne), c1))
                } else if crate::text::eq_lit(&var, "_") {
                    proof {
                        reveal_strlit("_");
                        assert("_"@ =~= seq!['_']);
                    }
                    Ok((Type::Existential(ne), c.append(ContextItem::Existential(ne, None))))
                } else {
                    proof {
                        reveal_strlit("_");
                        assert("_"@ =~= seq!['_']);
                    }
                    let mut msg = lit("Unbound identifier not in pattern: ");
                    push_str(&mut msg, var.as_str());
                    Err(type_error(msg, ast, expr))
                }
            },
        }
    } else if node.t == ASTNodeType::Pair {
        let e1 = ast.get_first(expr);
        let e2 = ast.get_second(expr);
        let (t1, c1) = synth_steps(c, ast, e1, is_pattern, g)?;
        let (t2, c2) = synth_steps(c1, ast, e2, is_pattern, g)?;
        let fas1 = t1.get_foralls();
        let fas2 = t2.get_foralls();
        let t = Type::fa(fas1, Type::fa(fas2, Type::pr(t1.strip_foralls(), t2.strip_foralls())));
        Ok((t, c2))
    } else if node.t == ASTNodeType::Literal {
        match node.get_lit_type() {
            Ok(t) => Ok((t, c)),
            Err(e) => Err(e),
        }
    } else if node.t == ASTNodeType::Match {
        synth_match_steps(c, ast, expr, is_pattern, fuel)
    } else if node.t == ASTNodeType::Abstraction {
        synth_abs_steps(c, ast, expr, is_pattern, fuel)
    } else if node.t == ASTNodeType::Application {
        let lhs = ast.get_func(expr);
        let rhs = ast.get_arg(expr);
        let (f_type, f_c) = synth_steps(c, ast, lhs, is_pattern, g)?;
        let f_type = f_c.substitute(&f_type);
        synth_app_steps(f_c, &f_type, ast, lhs, rhs, is_pattern, g)
    } else {
        Err(type_error(lit("Non expression"), ast, expr))
    }
}

/// The type synthesised for the match `expr` (the match case of `synth_spec`).
#[verifier::loop_isolation(false)]
fn synth_match_steps(c: Context, ast: &AST, expr: usize, is_pattern: bool, fuel: u64) -> (r: Result<(Type, Context), TypeError>)
    requires
        ast.wf(),
        expr < ast.vec@.len(),
        ast.vec@[expr as int].t == ASTNodeType::Match,
        fuel > 0,
    ensures
        r is Ok <==> synth_spec(c@, ast, expr as int, is_pattern, fuel as nat) is Some,
        r matches Ok((t, c2)) ==> synth_spec(c@, ast, expr as int, is_pattern, fuel as nat) == Some((t@, c2@)),
        r matches Err(x) ==> err_agrees(x, synth_err(c@, ast, expr as int, is_pattern, fuel as nat)),
    decreases fuel, 0nat,
{
    let g = fuel - 1;
    proof { ast.lemma_node(expr as int); }
    if is_pattern {
        return Err(type_error(lit("A match cannot stand in a pattern"), ast, expr));
    }
    let u = ast.get_match_unpack_pattern(expr);
    let (ut, c1) = match &ast.vec[u].type_assignment {
        Some(t) => {
            let c1 = check_steps(c, t, ast, u, false, g)?;
            (t.deep_clone(), c1)
        },
        None => synth_steps(c, ast, u, false, g)?,
    };
    if c1.next_exid >= usize::MAX {
        return Err(type_error(depth_error(), ast, expr));
    }
    let x = c1.get_next_existential_identifier();
    let expr_type = Type::Existential(x);
    let cases = ast.get_match_cases(expr);
    let ghost c2 = ctx_append(c1@, ItemV::Existential(x, None));
    let ghost uv = ut@;
    let mut cur = c1.append(ContextItem::Existential(x, None));
    let mut k: usize = 0;
    while k < cases.len()
        invariant
            k <= cases@.len(),
            cases_spec(c2, uv, x, ast, expr as int, k as nat, g as nat) == Some(cur@),
            uv == ut@,
        decreases cases@.len() - k,
    {
        let (p, e) = cases[k];
        assert(p == ast.child(expr as int, 2 * (k + 1) - 1));
        assert(e == ast.child(expr as int, 2 * (k + 1) as int));
        let pc = match check_steps(cur, &ut, ast, p, true, g) {
            Ok(pc) => pc,
            Err(err) => {
                proof {
                    lemma_cases_none(c2, uv, x, ast, expr as int, (k + 1) as nat, cases@.len() as nat, g as nat);
                    lemma_cases_err(c2, uv, x, ast, expr as int, (k + 1) as nat, cases@.len() as nat, g as nat);
                }
                return Err(err);
            },
        };
        cur = match check_steps(pc, &expr_type, ast, e, false, g) {
            Ok(ec) => ec,
            Err(err) => {
                proof {
                    lemma_cases_none(c2, uv, x, ast, expr as int, (k + 1) as nat, cases@.len() as nat, g as nat);
                    lemma_cases_err(c2, uv, x, ast, expr as int, (k + 1) as nat, cases@.len() as nat, g as nat);
                }
                return Err(err);
            },
        };
        k = k + 1;
    }
    match cur.get_existential(x) {
        Some(Some(t)) => Ok((t, cur)),
        _ => Err(type_error(lit("Match failed"), ast, expr)),
    }
}

/// The type synthesised for the abstraction `expr` (the abstraction case of
/// `synth_spec`).
fn synth_abs_steps(c: Context, ast: &AST, expr: usize, is_pattern: bool, fuel: u64) -> (r: Result<(Type, Context), TypeError>)
    requires
        ast.wf(),
        expr < ast.vec@.len(),
        ast.vec@[expr as int].t == ASTNodeType::Abstraction,
        fuel > 0,
    ensures
        r is Ok <==> synth_spec(c@, ast, expr as int, is_pattern, fuel as nat) is Some,
        r matches Ok((t, c2)) ==> synth_spec(c@, ast, expr as int, is_pattern, fuel as nat) == Some((t@, c2@)),
        r matches Err(x) ==> err_agrees(x, synth_err(c@, ast, expr as int, is_pattern, fuel as nat)),
    decreases fuel, 0nat,
{
    let g = fuel - 1;
    proof { ast.lemma_node(expr as int); }
    if c.next_exid >= usize::MAX - 2 {
        return Err(type_error(depth_error(), ast, expr));
    }
    let ne = c.get_next_existential_identifier();
    let ne2 = ne + 1;
    let c1 = c.append(ContextItem::Existential(ne, None)).append(ContextItem::Existential(ne2, None));
    let var = ast.get_abstr_var(expr);
    let c2 = match &ast.vec[var].type_assignment {
        Some(t) => c1.set_existential_definition(ne, t.deep_clone()),
        None => c1,
    };
    let (c3, before) = c2.recurse_add_to_context(&Type::Existential(ne), ast, var)?;
    let body = ast.get_abstr_expr(expr);
    let c4 = check_steps(c3, &Type::Existential(ne2), ast, body, false, g)?;
    let abst_type = Type::f(Type::Existential(ne), Type::Existential(ne2));
    Ok((abst_type, c4.get_before_assignment(before)))
}

/// The type of applying the function `f` of type `applied_type` to `expr` (see
/// `synth_app_spec`).
#[verifier::loop_isolation(false)]
fn synth_app_steps(c: Context, applied_type: &Type, ast: &AST, f: usize, expr: usize, is_pattern: bool, fuel: u64) -> (r: Result<(Type, Context), TypeError>)
    requires
        ast.wf(),
        f < ast.vec@.len(),
        expr < ast.vec@.len(),
    ensures
        r is Ok <==> synth_app_spec(c@, applied_type@, ast, expr as int, is_pattern, fuel as nat) is Some,
        r matches Ok((t, c2)) ==> synth_app_spec(c@, applied_type@, ast, expr as int, is_pattern, fuel as nat) == Some((t@, c2@)),
        r matches Err(e) ==> (fuel > 0 ==> app_error(applied_type@, ast, f as int, expr as int, e)),
        r matches Err(x) ==> err_agrees(x, synth_app_err(c@, applied_type@, ast, f as int, expr as int, is_pattern, fuel as nat)),
    decreases fuel, 1nat,
{
    if fuel == 0 {
        return Err(type_error(depth_error(), ast, expr));
    }
    let g = fuel - 1;
    match applied_type {
        Type::Forall(v, t) => {
            if c.next_exid >= usize::MAX {
                return Err(type_error(depth_error(), ast, expr));
            }
            let ne = c.get_next_existential_identifier();
            let new_c = c.append(ContextItem::Existential(ne, None));
            let a_subst = match (&**t).substitute_type_variable(v, &Type::Existential(ne)) {
                Ok(x) => x,
                Err(e) => return Err(type_error(e, ast, expr)),
            };
            synth_app_steps(new_c, &a_subst, ast, f, expr, is_pattern, g)
        },
        Type::Function(from, to) => {
            let pred = check_steps(c, &**from, ast, expr, is_pattern, g)?;
            Ok(((&**to).deep_clone(), pred))
        },
        Type::Existential(var) => {
            if c.next_exid >= usize::MAX - 2 {
                return Err(type_error(depth_error(), ast, expr));
            }
            let a1n = c.get_next_existential_identifier();
            let a2n = a1n + 1;
            let c1 = c.add_before_existential(*var, ContextItem::Existential(a2n, None))
                .add_before_existential(*var, ContextItem::Existential(a1n, None))
                .set_existential_definition(*var, Type::f(Type::Existential(a1n), Type::Existential(a2n)));
            let c2 = check_steps(c1, &Type::Existential(a1n), ast, expr, is_pattern, g)?;
            Ok((Type::Existential(a2n), c2))
        },
        Type::Product(_, _) | Type::Union(_, _) | Type::Primitive(_) => {
            let mut msg = lit("Cannot apply ");
            push_str(&mut msg, ast.to_string_sugar(f, false).as_str());
            push_str(&mut msg, " (of type ");
            push_str(&mut msg, applied_type.to_string().as_str());
            push_str(&mut msg, ") to ");
            push_str(&mut msg, ast.to_string_sugar(expr, false).as_str());
            Err(type_error(msg, ast, expr))
        },
        _ => {
            let mut msg = lit("App synthesis error. Failed to understand the application of type ");
            push_str(&mut msg, applied_type.to_string().as_str());
            push_str(&mut msg, " to expression ");
            push_str(&mut msg, ast.to_string_sugar(expr, false).as_str());
            Err(type_error(msg, ast, expr))
        },
    }
}

/// `c` is the context of the typed labels of `lt`, leaving out the names `skip`, with
/// fresh counters: each other name that has a label, once, with the type of its label
/// with the most arguments (in no particular order), and nothing else.
pub open spec fn labels_context(c: CtxV, lt: &LabelTable, skip: Seq<String>) -> bool {
    &&& c.next_exid == 0
    &&& c.next_ph == 0
    &&& forall|k: int| 0 <= k < c.items.len() ==> (#[trigger] c.items[k] matches ItemV::TypeAssignment(n, Some(t))
        && lt.has_label_type(n, t) && !names_has(skip, n)
        && lt.last_from(n, lt.map@.len()) is Some
        && lt.last_from(n, lt.map@.len())->0.label_type@ == t)
    &&& forall|n: Seq<char>| #[trigger] lt.last_from(n, lt.map@.len()) is Some && !names_has(skip, n)
        ==> exists|k: int| 0 <= k < c.items.len() && c.items[k] == ItemV::TypeAssignment(n, Some(lt.last_from(n, lt.map@.len())->0.label_type@))
    &&& forall|k1: int, k2: int| 0 <= k1 < k2 < c.items.len() ==> (#[trigger] c.items[k1])->TypeAssignment_0 != (#[trigger] c.items[k2])->TypeAssignment_0
}

/// Where checking reaches an assignment without a type, the error names it.
pub open spec fn untyped_message(ast: &AST, m: int, c0: CtxV, names: Seq<String>, r: Result<(), TypeError>) -> bool {
    forall|k: int| 0 <= k < names.len() && #[trigger] typecheck_spec(c0, ast, m, k as nat) is Some
        && ast.vec@[ast.find_assign(m, names[k]@)->0 as int].type_assignment is None
        ==> (r matches Err(e) && e.e@ == "Cannot find type assignment for:  "@ + names[k]@)
}

/// Checking stops at an assignment without a type.
pub proof fn lemma_untyped_stops(c0: CtxV, ast: &AST, m: int, names: Seq<String>, k: nat)
    requires
        k < names.len(),
        names.len() == ast.module_assigns(m).len(),
        forall|j: int| 0 <= j < names.len() ==> #[trigger] names[j]@ == ast.assign_name(ast.module_assigns(m)[j] as int),
        typecheck_spec(c0, ast, m, k) is Some,
        ast.vec@[ast.find_assign(m, names[k as int]@)->0 as int].type_assignment is None,
    ensures
        typecheck_spec(c0, ast, m, (k + 1) as nat) is None,
{
    assert(names[k as int]@ == ast.assign_name(ast.module_assigns(m)[k as int] as int));
}

/// Checking the first `k` assignments of module `m` in order, each name against the type
/// assigned to it (a name's first assignment counts): the context after them, or `None`
/// where one has no type or does not check.
pub open spec fn typecheck_spec(c: CtxV, ast: &AST, m: int, k: nat) -> Option<CtxV>
    decreases k,
{
    if k == 0 {
        Some(c)
    } else {
        match typecheck_spec(c, ast, m, (k - 1) as nat) {
            None => None,
            Some(ck) => {
                let name = ast.assign_name(ast.module_assigns(m)[k - 1] as int);
                let a = ast.find_assign(m, name)->0 as int;
                match ast.vec@[a].type_assignment {
                    None => None,
                    Some(t) => check_spec(
                        ctx_append(ck, ItemV::TypeAssignment(name, Some(t@))),
                        t@,
                        ast,
                        ast.child(a, 1) as int,
                        false,
                        MAX_DEPTH as nat,
                    ),
                }
            },
        }
    }
}

/// Why checking the first `k` assignments of module `m` fails (see `typecheck_spec`):
/// the error of the first assignment that has no type or does not check.
pub open spec fn typecheck_err(c: CtxV, ast: &AST, m: int, k: nat) -> Option<ErrV>
    decreases k,
{
    if k == 0 {
        None
    } else {
        match typecheck_spec(c, ast, m, (k - 1) as nat) {
            None => typecheck_err(c, ast, m, (k - 1) as nat),
            Some(ck) => {
                let name = ast.assign_name(ast.module_assigns(m)[k - 1] as int);
                let a = ast.find_assign(m, name)->0 as int;
                match ast.vec@[a].type_assignment {
                    None => Some(err_at("Cannot find type assignment for:  "@ + name, ast, ast.child(a, 1) as int)),
                    Some(t) => check_err(
                        ctx_append(ck, ItemV::TypeAssignment(name, Some(t@))),
                        t@,
                        ast,
                        ast.child(a, 1) as int,
                        false,
                        MAX_DEPTH as nat,
                    ),
                }
            },
        }
    }
}

/// Once a prefix of the assignments fails, every longer one fails for the same reason.
pub proof fn lemma_typecheck_err(c: CtxV, ast: &AST, m: int, k: nat, j: nat)
    requires
        k <= j,
        typecheck_spec(c, ast, m, k) is None,
    ensures
        typecheck_err(c, ast, m, j) == typecheck_err(c, ast, m, k),
    decreases j,
{
    if j > k {
        lemma_typecheck_none(c, ast, m, k, (j - 1) as nat);
        lemma_typecheck_err(c, ast, m, k, (j - 1) as nat);
    }
}

pub proof fn lemma_typecheck_none(c: CtxV, ast: &AST, m: int, k: nat, j: nat)
    requires
        k <= j,
        typecheck_spec(c, ast, m, k) is None,
    ensures
        typecheck_spec(c, ast, m, j) is None,
    decreases j,
{
    if j > k {
        lemma_typecheck_none(c, ast, m, k, (j - 1) as nat);
    }
}

/// The outcome of checking module `m`: `ok` exactly where its assignments check in order
/// (see `typecheck_spec`), starting from a context `c0` of the labels of `lt` whose names
/// (`names`, those of the assignments in order) the module does not assign.
pub open spec fn typecheck_outcome(ast: &AST, m: int, lt: &LabelTable, c0: CtxV, names: Seq<String>, ok: bool) -> bool {
    &&& labels_context(c0, lt, names)
    &&& names.len() == ast.module_assigns(m).len()
    &&& forall|k: int| 0 <= k < names.len() ==> #[trigger] names[k]@ == ast.assign_name(ast.module_assigns(m)[k] as int)
    &&& (ok <==> typecheck_spec(c0, ast, m, ast.module_assigns(m).len()) is Some)
}

/// `a` is a subtype of `b` in context `c` (see `sub_spec`): the context after solving the
/// existentials it takes, or why not.
pub fn subtype(c: Context, a: &Type, b: &Type, type_map: &TypeMap) -> (r: Result<Context, String>)
    ensures
        r is Ok <==> sub_spec(c@, a@, b@, MAX_DEPTH as nat) is Some,
        r matches Ok(c2) ==> sub_spec(c@, a@, b@, MAX_DEPTH as nat) == Some(c2@),
        r matches Err(m) ==> m@ == sub_err(c@, a@, b@, MAX_DEPTH as nat),
{
    subtype_steps(c, a, b, MAX_DEPTH)
}

/// Checks the expression `expr` against `expected` in context `c` (see `check_spec`).
pub fn check_type(c: Context, expected: &Type, ast: &AST, expr: usize, type_map: &TypeMap, is_pattern: bool) -> (r: Result<Context, TypeError>)
    requires
        ast.wf(),
        expr < ast.vec@.len(),
    ensures
        r is Ok <==> check_spec(c@, expected@, ast, expr as int, is_pattern, MAX_DEPTH as nat) is Some,
        r matches Ok(c2) ==> check_spec(c@, expected@, ast, expr as int, is_pattern, MAX_DEPTH as nat) == Some(c2@),
        r matches Err(x) ==> err_agrees(x, check_err(c@, expected@, ast, expr as int, is_pattern, MAX_DEPTH as nat)),
{
    check_steps(c, expected, ast, expr, is_pattern, MAX_DEPTH)
}

/// Checks a top level expression against `expected`, in the context of the inbuilts.
pub fn typecheck_tl_expr(expected: &Type, ast: &AST, expr: usize) -> (r: Result<(), TypeError>)
    requires
        ast.wf(),
        expr < ast.vec@.len(),
    ensures
        exists|lt: LabelTable, c0: CtxV| inbuilt_table(&lt) && lt.wf() && #[trigger] labels_context(c0, &lt, Seq::empty())
            && (r is Ok <==> check_spec(c0, expected@, ast, expr as int, false, MAX_DEPTH as nat) is Some)
            && (r matches Err(x) ==> err_agrees(x, check_err(c0, expected@, ast, expr as int, false, MAX_DEPTH as nat))),
{
    let lt = LabelTable::new();
    proof { lemma_new_inbuilt_table(&lt); }
    let none: Vec<String> = Vec::new();
    let c = Context::from_labels(&lt, &none);
    assert(none@ =~= Seq::<String>::empty());
    assert(labels_context(c@, &lt, none@));
    match check_steps(c, expected, ast, expr, false, MAX_DEPTH) {
        Ok(_) => Ok(()),
        Err(e) => Err(e),
    }
}

/// Checks each assignment of the module against the type assigned to it, in order; an
/// assignment without a type is refused. The labels of `lt` whose names the module does
/// not assign are in the context.
pub fn typecheck(ast: &mut AST, module: usize, lt: &mut LabelTable, type_map: &TypeMap) -> (r: Result<(), TypeError>)
    requires
        old(ast).wf(),
        old(lt).wf(),
        module < old(ast).vec@.len(),
        old(ast).vec@[module as int].t == ASTNodeType::Module,
    ensures
        *final(ast) == *old(ast),
        *final(lt) == *old(lt),
        exists|c0: CtxV, names: Seq<String>| #[trigger] typecheck_outcome(old(ast), module as int, old(lt), c0, names, r is Ok)
            && untyped_message(old(ast), module as int, c0, names, r)
            && (r matches Err(x) ==> err_agrees(x, typecheck_err(c0, old(ast), module as int, old(ast).module_assigns(module as int).len()))),
{
    typecheck_module(ast, module, lt)
}

fn typecheck_module(ast: &AST, module: usize, lt: &LabelTable) -> (r: Result<(), TypeError>)
    requires
        ast.wf(),
        lt.wf(),
        module < ast.vec@.len(),
        ast.vec@[module as int].t == ASTNodeType::Module,
    ensures
        exists|c0: CtxV, names: Seq<String>| #[trigger] typecheck_outcome(ast, module as int, lt, c0, names, r is Ok)
            && untyped_message(ast, module as int, c0, names, r)
            && (r matches Err(x) ==> err_agrees(x, typecheck_err(c0, ast, module as int, ast.module_assigns(module as int).len()))),
{
    let names = ast.get_assignee_names(module);
    let c0 = Context::from_labels(lt, &names);
    let ghost c0v = c0@;
    assert(labels_context(c0v, lt, names@));
    let mut c = c0;
    let mut k: usize = 0;
    proof { ast.lemma_node(module as int); }
    while k < names.len()
        invariant
            ast.wf(),
            module < ast.vec@.len(),
            ast.vec@[module as int].t == ASTNodeType::Module,
            names@.len() == ast.module_assigns(module as int).len(),
            forall|j: int| 0 <= j < names@.len() ==> #[trigger] names@[j]@ == ast.assign_name(ast.module_assigns(module as int)[j] as int),
            k <= names@.len(),
            typecheck_spec(c0v, ast, module as int, k as nat) == Some(c@),
            labels_context(c0v, lt, names@),
        decreases names@.len() - k,
    {
        let name = names[k].clone();
        proof {
            ast.lemma_node(module as int);
            assert(ast.child_ok(module as int, ast.vec@[module as int].children@[k as int]));
            assert(ast.find_assign(module as int, name@) is Some) by {
                lemma_first_assign_found(ast, ast.module_assigns(module as int), name@, 0, k as nat);
            }
        }
        let assign = match ast.get_assign_to(module, name.clone()) {
            Some(a) => a,
            None => {
                return Err(type_error(lit("Missing assignment"), ast, module));
            },
        };
        let assign_expr = ast.get_assign_exp(assign);
        match &ast.vec[assign].type_assignment {
            Some(t) => {
                let c1 = c.append(ContextItem::TypeAssignment(name.clone(), Ok(t.deep_clone())));
                match check_steps(c1, t, ast, assign_expr, false, MAX_DEPTH) {
                    Ok(c2) => {
                        c = c2;
                    },
                    Err(e) => {
                        let r: Result<(), TypeError> = Err(e);
                        proof {
                            lemma_typecheck_none(c0v, ast, module as int, (k + 1) as nat, names@.len() as nat);
                            lemma_typecheck_err(c0v, ast, module as int, (k + 1) as nat, names@.len() as nat);
                            assert(typecheck_outcome(ast, module as int, lt, c0v, names@, false));
                            assert forall|k2: int| 0 <= k2 < names@.len() && #[trigger] typecheck_spec(c0v, ast, module as int, k2 as nat) is Some
                                && ast.vec@[ast.find_assign(module as int, names@[k2]@)->0 as int].type_assignment is None
                                implies (r matches Err(e) && e.e@ == "Cannot find type assignment for:  "@ + names@[k2]@) by {
                                lemma_untyped_stops(c0v, ast, module as int, names@, k2 as nat);
                                if k2 < k {
                                    lemma_typecheck_none(c0v, ast, module as int, (k2 + 1) as nat, k as nat);
                                } else if k2 > k {
                                    lemma_typecheck_none(c0v, ast, module as int, (k + 1) as nat, k2 as nat);
                                }
                            }
                        }
                        return r;
                    },
                }
            },
            None => {
                let mut msg = lit("Cannot find type assignment for:  ");
                push_str(&mut msg, name.as_str());
                proof {
                    lemma_typecheck_none(c0v, ast, module as int, (k + 1) as nat, names@.len() as nat);
                    lemma_typecheck_err(c0v, ast, module as int, (k + 1) as nat, names@.len() as nat);
                    assert(typecheck_outcome(ast, module as int, lt, c0v, names@, false));
                }
                let r: Result<(), TypeError> = Err(type_error(msg, ast, assign_expr));
                assert(typecheck_outcome(ast, module as int, lt, c0v, names@, r is Ok));
                proof {
                    reveal_strlit("Cannot find type assignment for:  ");
                    assert forall|k2: int| 0 <= k2 < names@.len() && #[trigger] typecheck_spec(c0v, ast, module as int, k2 as nat) is Some
                        && ast.vec@[ast.find_assign(module as int, names@[k2]@)->0 as int].type_assignment is None
                        implies (r matches Err(e) && e.e@ == "Cannot find type assignment for:  "@ + names@[k2]@) by {
                        lemma_untyped_stops(c0v, ast, module as int, names@, k2 as nat);
                        if k2 < k {
                            lemma_typecheck_none(c0v, ast, module as int, (k2 + 1) as nat, k as nat);
                        } else if k2 > k {
                            lemma_typecheck_none(c0v, ast, module as int, (k + 1) as nat, k2 as nat);
                        }
                    }
                }
                return r;
            },
        }
        k = k + 1;
    }
    let r: Result<(), TypeError> = Ok(());
    assert(typecheck_outcome(ast, module as int, lt, c0v, names@, r is Ok));
    proof {
        assert forall|k2: int| 0 <= k2 < names@.len() && #[trigger] typecheck_spec(c0v, ast, module as int, k2 as nat) is Some
            && ast.vec@[ast.find_assign(module as int, names@[k2]@)->0 as int].type_assignment is None
            implies (r matches Err(e) && e.e@ == "Cannot find type assignment for:  "@ + names@[k2]@) by {
            lemma_untyped_stops(c0v, ast, module as int, names@, k2 as nat);
            lemma_typecheck_none(c0v, ast, module as int, (k2 + 1) as nat, names@.len() as nat);
        }
    }
    r
}

/// A name bound by the `k`-th assignment is found by the search from `j <= k` on.
pub proof fn lemma_first_assign_found(ast: &AST, cs: Seq<usize>, name: Seq<char>, j: nat, k: nat)
    requires
        j <= k < cs.len(),
        ast.assign_name(cs[k as int] as int) == name,
    ensures
        ast.first_assign(cs, name, j) is Some,
    decreases k - j,
{
    if j < k && ast.assign_name(cs[j as int] as int) != name {
        lemma_first_assign_found(ast, cs, name, j + 1, k);
    }
}

/// The outcome of inferring the type of `expr` from the context `c0`: `r` is the
/// synthesised type with solved existentials substituted and the others quantified, or
/// `None` where synthesis fails.
pub open spec fn infer_outcome(ast: &AST, expr: int, c0: CtxV, r: Option<TypeV>) -> bool {
    match synth_spec(c0, ast, expr, false, MAX_DEPTH as nat) {
        None => r is None,
        Some((t, c1)) => r == Some(crate::generalize::forall_ify_spec(ctx_subst(c1, t), crate::types::tv_tvs(ctx_subst(c1, t)).len())),
    }
}

/// The type held by a result, if any.
pub open spec fn result_type(r: Result<Type, TypeError>) -> Option<TypeV> {
    match r {
        Ok(t) => Some(t@),
        Err(_) => None,
    }
}

/// Infers the type of the expression `expr` in the context of the inbuilts.
pub fn infer_type(ast: &AST, expr: usize, type_map: &TypeMap) -> (r: Result<Type, TypeError>)
    requires
        ast.wf(),
        expr < ast.vec@.len(),
    ensures
        exists|lt: LabelTable, c0: CtxV| #![trigger labels_context(c0, &lt, Seq::<String>::empty()), infer_outcome(ast, expr as int, c0, result_type(r))]
            inbuilt_table(&lt) && lt.wf() && labels_context(c0, &lt, Seq::<String>::empty()) && infer_outcome(ast, expr as int, c0, result_type(r))
            && (r matches Err(x) ==> err_agrees(x, synth_err(c0, ast, expr as int, false, MAX_DEPTH as nat))),
{
    let lt = LabelTable::new();
    proof { lemma_new_inbuilt_table(&lt); }
    let none: Vec<String> = Vec::new();
    let c = Context::from_labels(&lt, &none);
    let ghost c0 = c@;
    assert(none@ =~= Seq::<String>::empty());
    assert(labels_context(c0, &lt, none@));
    match synth_steps(c, ast, expr, false, MAX_DEPTH) {
        Ok((t, c1)) => {
            let t2 = c1.substitute(&t);
            let t3 = t2.forall_ify();
            let r: Result<Type, TypeError> = Ok(t3);
            assert(infer_outcome(ast, expr as int, c0, result_type(r)));
            r
        },
        Err(e) => {
            let r: Result<Type, TypeError> = Err(e);
            assert(infer_outcome(ast, expr as int, c0, result_type(r)));
            r
        },
    }
}

} // verus!
