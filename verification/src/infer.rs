//! Checking a module's annotated assignments and inferring the types of the others.
use vstd::prelude::*;

use crate::ast::{ASTNode, ASTNodeType, AST};
use crate::checker::{check_spec, check_steps, labels_context, synth_spec, synth_steps, MAX_DEPTH};
use crate::context::{
    ctx_append, ctx_subst, drop_assign, keep_assigns, opt_type_view, type_error, Context, ContextItem, CtxV, ItemV,
};
use crate::generalize::forall_ify_spec;
use crate::labels::{inbuilt_table, lemma_new_inbuilt_table, LabelTable};
use crate::text::{lit, push_str};
use crate::types::{tv_arity, tv_tvs, Type, TypeError, TypeV};

verus! {

/// The type last recorded for node `a` in `sets`.
pub open spec fn set_for(sets: Seq<(usize, TypeV)>, a: int) -> Option<TypeV>
    decreases sets.len(),
{
    if sets.len() == 0 {
        None
    } else if sets.last().0 == a {
        Some(sets.last().1)
    } else {
        set_for(sets.drop_last(), a)
    }
}

/// The values of recorded (node, type) pairs.
pub open spec fn pairs_view(s: Seq<(usize, Type)>) -> Seq<(usize, TypeV)> {
    Seq::new(s.len(), |j: int| (s[j].0, s[j].1@))
}

/// `t` quantified over its unsolved existentials.
pub open spec fn generalized(t: TypeV) -> TypeV {
    forall_ify_spec(t, tv_tvs(t).len())
}

/// What inference has gathered so far: the context, the labels to add (name and type, in
/// order) and the types found for assignments that had none (node and type, in order).
pub type InferState = (CtxV, Seq<(Seq<char>, TypeV)>, Seq<(usize, TypeV)>);

/// The labels gathered.
pub open spec fn labels_of(st: InferState) -> Seq<(Seq<char>, TypeV)> {
    st.1
}

/// The types found for assignments without one.
pub open spec fn sets_of(st: InferState) -> Seq<(usize, TypeV)> {
    st.2
}

/// One step: assignment `a`, binding `name`. With a type (its annotation, or the one
/// found for it earlier) it is checked against that type; without one, its expression's
/// type is synthesised with `name` unusable, solved existentials substituted and the
/// rest quantified, and the context is cut to its assignments, the old ones to `name`
/// dropped, the new type added.
pub open spec fn infer_step(st: InferState, ast: &AST, a: int, name: Seq<char>) -> Option<InferState> {
    let (c, labels, sets) = st;
    let e = ast.child(a, 1) as int;
    let known = match ast.vec@[a].type_assignment {
        Some(t) => Some(t@),
        None => set_for(sets, a),
    };
    match known {
        Some(t) => match check_spec(ctx_append(c, ItemV::TypeAssignment(name, Some(t))), t, ast, e, false, MAX_DEPTH as nat) {
            None => None,
            Some(c2) => Some((c2, labels.push((name, t)), sets)),
        },
        None => match synth_spec(ctx_append(c, ItemV::TypeAssignment(name, None)), ast, e, false, MAX_DEPTH as nat) {
            None => None,
            Some((t, c2)) => {
                let u = generalized(ctx_subst(c2, t));
                let c3 = CtxV { items: drop_assign(keep_assigns(c2.items), name), ..c2 };
                Some((ctx_append(c3, ItemV::TypeAssignment(name, Some(u))), labels.push((name, u)), sets.push((a as usize, u))))
            },
        },
    }
}

/// The first `k` assignments of module `m`, in order, from context `c0`.
pub open spec fn infer_spec(c0: CtxV, ast: &AST, m: int, k: nat) -> Option<InferState>
    decreases k,
{
    if k == 0 {
        Some((c0, Seq::empty(), Seq::empty()))
    } else {
        match infer_spec(c0, ast, m, (k - 1) as nat) {
            None => None,
            Some(st) => {
                let name = ast.assign_name(ast.module_assigns(m)[k - 1] as int);
                infer_step(st, ast, ast.find_assign(m, name)->0 as int, name)
            },
        }
    }
}

pub proof fn lemma_infer_none(c0: CtxV, ast: &AST, m: int, k: nat, j: nat)
    requires
        k <= j,
        infer_spec(c0, ast, m, k) is None,
    ensures
        infer_spec(c0, ast, m, j) is None,
    decreases j,
{
    if j > k {
        lemma_infer_none(c0, ast, m, k, (j - 1) as nat);
    }
}

/// The type of the label added last for `n` with `a` arguments (a type with `usize::MAX`
/// or more arrows gets no label).
pub open spec fn added_at(labels: Seq<(Seq<char>, TypeV)>, a: int, n: Seq<char>) -> Option<TypeV>
    decreases labels.len(),
{
    if labels.len() == 0 {
        None
    } else if labels.last().0 == n && tv_arity(labels.last().1) == a && tv_arity(labels.last().1) < usize::MAX {
        Some(labels.last().1)
    } else {
        added_at(labels.drop_last(), a, n)
    }
}

/// `lt` is `base` with a defined label added for each of `labels`, in order.
pub open spec fn labels_added(lt: &LabelTable, base: &LabelTable, labels: Seq<(Seq<char>, TypeV)>) -> bool {
    &&& lt.wf()
    &&& forall|a: int, n: Seq<char>| #[trigger] lt.at(a, n) == lt.at(a, n) && match added_at(labels, a, n) {
        Some(t) => lt.at(a, n) matches Some(l) && l.label_type@ == t && l.inbuilt is None && l.reduction_arity == a,
        None => lt.at(a, n) == base.at(a, n),
    }
}

/// `b` is `a` with the types of `sets` written to their nodes (the last one for a node
/// counts) and nothing else changed.
pub open spec fn types_written(a: &AST, b: &AST, sets: Seq<(usize, TypeV)>) -> bool {
    &&& b.wf()
    &&& b.vec@.len() == a.vec@.len()
    &&& b.root == a.root
    &&& forall|i: int| 0 <= i < a.vec@.len() ==> #[trigger] b.vec@[i] == (ASTNode { type_assignment: b.vec@[i].type_assignment, ..a.vec@[i] })
        && match set_for(sets, i) {
            Some(t) => b.vec@[i].type_assignment matches Some(x) && x@ == t,
            None => b.vec@[i].type_assignment == a.vec@[i].type_assignment,
        }
}

/// The outcome of inference over module `m` of `a`, leaving the tree `b` and the result
/// `r`: from the context `c0` of the labels of `base` (the inbuilt ones), every assignment
/// is taken in order (see `infer_spec`) until one fails; `r` is `Ok` when none does, with
/// `base` plus one label per assignment; the types found until the failure, if any, are
/// written to their assignments.
pub open spec fn inferred(a: &AST, b: &AST, m: int, base: &LabelTable, c0: CtxV, r: Result<LabelTable, TypeError>) -> bool {
    let n = a.module_assigns(m).len();
    &&& inbuilt_table(base)
    &&& base.wf()
    &&& labels_context(c0, base, Seq::empty())
    &&& (r is Ok <==> infer_spec(c0, a, m, n) is Some)
    &&& exists|k: nat| #![trigger infer_spec(c0, a, m, k)]
        k <= n && infer_spec(c0, a, m, k) is Some && (k < n ==> infer_spec(c0, a, m, k + 1) is None)
        && types_written(a, b, sets_of(infer_spec(c0, a, m, k)->0))
        && (r matches Ok(lt) ==> k == n && labels_added(&lt, base, labels_of(infer_spec(c0, a, m, k)->0)))
}

/// The type recorded last for node `a`.
fn find_set(sets: &Vec<(usize, Type)>, a: usize) -> (r: Option<Type>)
    ensures
        opt_type_view(r) == set_for(pairs_view(sets@), a as int),
{
    let ghost all = pairs_view(sets@);
    let mut found: Option<Type> = None;
    let mut j: usize = 0;
    while j < sets.len()
        invariant
            j <= sets@.len(),
            all == pairs_view(sets@),
            opt_type_view(found) == set_for(all.take(j as int), a as int),
        decreases sets@.len() - j,
    {
        assert(all.take(j + 1).drop_last() =~= all.take(j as int));
        assert(all.take(j + 1).last() == (sets@[j as int].0, sets@[j as int].1@));
        if sets[j].0 == a {
            found = Some(sets[j].1.deep_clone());
        }
        j = j + 1;
    }
    assert(all.take(j as int) =~= all);
    found
}

/// Writes each recorded type to its node, in order.
fn write_types(ast: &mut AST, sets: &Vec<(usize, Type)>)
    requires
        old(ast).wf(),
        forall|j: int| 0 <= j < sets@.len() ==> (#[trigger] sets@[j]).0 < old(ast).vec@.len(),
    ensures
        types_written(old(ast), final(ast), pairs_view(sets@)),
{
    let ghost a0 = *ast;
    let ghost all = pairs_view(sets@);
    let mut j: usize = 0;
    while j < sets.len()
        invariant
            j <= sets@.len(),
            all == pairs_view(sets@),
            forall|i: int| 0 <= i < sets@.len() ==> (#[trigger] sets@[i]).0 < a0.vec@.len(),
            types_written(&a0, ast, all.take(j as int)),
        decreases sets@.len() - j,
    {
        assert(all.take(j + 1).drop_last() =~= all.take(j as int));
        assert(all.take(j + 1).last() == (sets@[j as int].0, sets@[j as int].1@));
        let ghost before = *ast;
        let node = sets[j].0;
        let t = sets[j].1.deep_clone();
        ast.set_type(node, t);
        proof {
            assert forall|i: int| 0 <= i < a0.vec@.len() implies #[trigger] ast.vec@[i] == (ASTNode { type_assignment: ast.vec@[i].type_assignment, ..a0.vec@[i] })
                && match set_for(all.take(j + 1), i) {
                    Some(t) => ast.vec@[i].type_assignment matches Some(x) && x@ == t,
                    None => ast.vec@[i].type_assignment == a0.vec@[i].type_assignment,
                } by {
                assert(before.vec@[i] == (ASTNode { type_assignment: before.vec@[i].type_assignment, ..a0.vec@[i] }));
            }
        }
        j = j + 1;
    }
    assert(all.take(j as int) =~= all);
}

/// Adds a defined label for `name` of type `t`, unless `t` has `usize::MAX` or more arrows.
fn add_label(lt: &mut LabelTable, name: &String, t: &Type, Ghost(base): Ghost<&LabelTable>, Ghost(labels): Ghost<Seq<(Seq<char>, TypeV)>>)
    requires
        labels_added(old(lt), base, labels),
    ensures
        labels_added(final(lt), base, labels.push((name@, t@))),
{
    let ghost lt1 = *lt;
    if t.arity_below(usize::MAX) {
        lt.add(name.clone(), t.deep_clone());
    }
    let ghost lb2 = labels.push((name@, t@));
    assert forall|a: int, n: Seq<char>| #[trigger] lt.at(a, n) == lt.at(a, n) && match added_at(lb2, a, n) {
        Some(x) => lt.at(a, n) matches Some(l) && l.label_type@ == x && l.inbuilt is None && l.reduction_arity == a,
        None => lt.at(a, n) == base.at(a, n),
    } by {
        assert(lb2.drop_last() =~= labels);
        assert(lt1.at(a, n) == lt1.at(a, n));
    }
}

/// One step of inference (see `infer_step`) on assignment `assign` of `ast`, binding
/// `name`; returns the new context and the type the assignment is taken to have.
fn infer_assign(c: Context, sets: &mut Vec<(usize, Type)>, ast: &AST, module: usize, assign: usize, name: &String, Ghost(labels): Ghost<Seq<(Seq<char>, TypeV)>>)
    -> (r: Result<(Context, Type), TypeError>)
    requires
        ast.wf(),
        module < ast.vec@.len(),
        ast.vec@[module as int].t == ASTNodeType::Module,
        assign < ast.vec@.len(),
        ast.vec@[assign as int].t == ASTNodeType::Assignment,
        forall|j: int| 0 <= j < old(sets)@.len() ==> (#[trigger] old(sets)@[j]).0 < ast.vec@.len(),
    ensures
        r is Ok <==> infer_step((c@, labels, pairs_view(old(sets)@)), ast, assign as int, name@) is Some,
        r matches Ok((c2, t)) ==> infer_step((c@, labels, pairs_view(old(sets)@)), ast, assign as int, name@)
            == Some((c2@, labels.push((name@, t@)), pairs_view(final(sets)@))),
        r is Err ==> final(sets)@ == old(sets)@,
        forall|j: int| 0 <= j < final(sets)@.len() ==> (#[trigger] final(sets)@[j]).0 < ast.vec@.len(),
{
    let expr = ast.get_assign_exp(assign);
    let known: Option<Type> = match &ast.vec[assign].type_assignment {
        Some(t) => Some(t.deep_clone()),
        None => find_set(sets, assign),
    };
    match known {
        Some(t) => {
            let c1 = c.append(ContextItem::TypeAssignment(name.clone(), Ok(t.deep_clone())));
            match check_steps(c1, &t, ast, expr, false, MAX_DEPTH) {
                Ok(c2) => Ok((c2, t)),
                Err(e) => Err(e),
            }
        },
        None => {
            let mut msg = lit("Cannot infer type of expression containing recursive call. Assign a type to label '");
            push_str(&mut msg, name.as_str());
            push_str(&mut msg, "'");
            let c1 = c.append(ContextItem::TypeAssignment(name.clone(), Err(type_error(msg, ast, expr))));
            match synth_steps(c1, ast, expr, false, MAX_DEPTH) {
                Ok((t, c2)) => {
                    let t2 = c2.substitute(&t);
                    let u = t2.forall_ify();
                    let c3 = c2.assigns_only().remove_assignment(name);
                    let c4 = c3.append(ContextItem::TypeAssignment(name.clone(), Ok(u.deep_clone())));
                    let ghost sets1 = sets@;
                    sets.push((assign, u.deep_clone()));
                    assert(pairs_view(sets@) =~= pairs_view(sets1).push((assign, u@)));
                    Ok((c4, u))
                },
                Err(e) => Err(e),
            }
        },
    }
}

/// Checks each assignment of the module, in order, against its type; an assignment
/// without one gets the type of its expression (solved existentials substituted, the
/// others quantified), written to it. Returns the inbuilt labels with one label added
/// for each assignment.
pub fn infer_or_check_assignment_types(ast: &mut AST, module: usize) -> (r: Result<LabelTable, TypeError>)
    requires
        old(ast).wf(),
        module < old(ast).vec@.len(),
        old(ast).vec@[module as int].t == ASTNodeType::Module,
    ensures
        exists|base: LabelTable, c0: CtxV| #[trigger] inferred(old(ast), final(ast), module as int, &base, c0, r),
{
    let ghost a0 = *ast;
    let ghost m = module as int;
    let lt0 = LabelTable::new();
    proof { lemma_new_inbuilt_table(&lt0); }
    let ghost base = lt0;
    let none: Vec<String> = Vec::new();
    let c0 = Context::from_labels(&lt0, &none);
    let ghost c0v = c0@;
    assert(none@ =~= Seq::<String>::empty());
    assert(labels_context(c0v, &lt0, none@));
    let mut lt = lt0;
    let names = ast.get_assignee_names(module);
    let mut c = c0;
    let mut sets: Vec<(usize, Type)> = Vec::new();
    let ghost mut labels: Seq<(Seq<char>, TypeV)> = Seq::empty();
    let mut k: usize = 0;
    proof {
        ast.lemma_node(module as int);
        assert(pairs_view(sets@) =~= Seq::<(usize, TypeV)>::empty());
        assert forall|a: int, n: Seq<char>| #[trigger] lt.at(a, n) == lt.at(a, n) && match added_at(labels, a, n) {
            Some(t) => lt.at(a, n) matches Some(l) && l.label_type@ == t && l.inbuilt is None && l.reduction_arity == a,
            None => lt.at(a, n) == base.at(a, n),
        } by {}
    }
    while k < names.len()
        invariant
            *ast == a0,
            *old(ast) == a0,
            a0.wf(),
            module < a0.vec@.len(),
            m == module as int,
            a0.vec@[m].t == ASTNodeType::Module,
            names@.len() == a0.module_assigns(m).len(),
            forall|j: int| 0 <= j < names@.len() ==> #[trigger] names@[j]@ == a0.assign_name(a0.module_assigns(m)[j] as int),
            k <= names@.len(),
            infer_spec(c0v, &a0, m, k as nat) == Some((c@, labels, pairs_view(sets@))),
            labels_added(&lt, &base, labels),
            forall|j: int| 0 <= j < sets@.len() ==> (#[trigger] sets@[j]).0 < a0.vec@.len(),
            inbuilt_table(&base),
            base.wf(),
            labels_context(c0v, &base, Seq::empty()),
        decreases names@.len() - k,
    {
        let name = names[k].clone();
        proof {
            a0.lemma_node(m);
            assert(a0.child_ok(m, a0.vec@[m].children@[k as int]));
            assert(a0.find_assign(m, name@) is Some) by {
                crate::checker::lemma_first_assign_found(&a0, a0.module_assigns(m), name@, 0, k as nat);
            }
            assert(name@ == a0.assign_name(a0.module_assigns(m)[k as int] as int));
        }
        let assign = ast.get_assign_to(module, name.clone()).unwrap();
        match infer_assign(c, &mut sets, ast, module, assign, &name, Ghost(labels)) {
            Ok((c2, t)) => {
                c = c2;
                add_label(&mut lt, &name, &t, Ghost(&base), Ghost(labels));
                proof { labels = labels.push((name@, t@)); }
            },
            Err(e) => {
                write_types(ast, &sets);
                let r: Result<LabelTable, TypeError> = Err(e);
                proof {
                    lemma_infer_none(c0v, &a0, m, (k + 1) as nat, names@.len() as nat);
                    assert(infer_spec(c0v, &a0, m, k as nat) is Some);
                    assert(inferred(&a0, ast, m, &base, c0v, r));
                }
                return r;
            },
        }
        k = k + 1;
    }
    write_types(ast, &sets);
    let r: Result<LabelTable, TypeError> = Ok(lt);
    proof {
        assert(infer_spec(c0v, &a0, m, k as nat) is Some);
        assert(inferred(&a0, ast, m, &base, c0v, r));
    }
    r
}

} // verus!
