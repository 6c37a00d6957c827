//! Finding the redexes of an expression and what each contracts to.
use vstd::prelude::*;

use crate::ast::{is_expr_kind, ASTNode, ASTNodeType, RCPair, AST};
use crate::inbuilts::{inbuilt_defined, inbuilt_result, nodes_of};
use crate::labels::LabelTable;
use crate::output::paren;
use crate::pattern::{
    app_head, binds_view, binds_within, match_spec, pattern_match, pattern_ok, Outcome,
    PatternMatchResult,
};
use crate::text::{lit, push_str};
use crate::term::{apply_args, named_terms, subst_each, term, Term};
use crate::transform::{arg_terms, closed_from, copied_node};

verus! {

/// What a redex at an application is: a call of an inbuilt, of a function bound in the
/// module, or of an abstraction.
pub enum CallKind {
    Inbuilt,
    Function,
    Abstraction,
}

/// The arguments of the applications nested at `e`, the last one first.
pub open spec fn spine_args(ast: &AST, e: int) -> Seq<usize>
    decreases ast.measure(e),
{
    if ast.wf() && ast.valid(e) && ast.vec@[e].t == ASTNodeType::Application {
        proof { ast.lemma_node(e); }
        seq![ast.child(e, 1)] + spine_args(ast, ast.child(e, 0) as int)
    } else {
        Seq::empty()
    }
}

/// Every argument is a literal.
pub open spec fn literals_only(ast: &AST, args: Seq<usize>) -> bool {
    forall|k: int| 0 <= k < args.len() ==> ast.vec@[#[trigger] args[k] as int].t == ASTNodeType::Literal
}

/// The argument nodes.
pub open spec fn arg_nodes(ast: &AST, args: Seq<usize>) -> Seq<ASTNode> {
    Seq::new(args.len(), |k: int| ast.vec@[args[k] as int])
}

/// Where the abstractions at `a` take a pair, the argument is a pair.
pub open spec fn pairs_fit(ast: &AST, args: Seq<usize>, a: int) -> bool {
    forall|k: int|
        0 <= k < args.len() && ast.vec@[#[trigger] args[k] as int].t != ASTNodeType::Pair
            ==> ast.vec@[ast.abstr_var_at(a, k as nat) as int].t != ASTNodeType::Pair
}

/// The assignment that `name` stands for in the module, if there is one.
pub open spec fn module_assign(ast: &AST, module: Option<usize>, name: Seq<char>) -> Option<usize> {
    match module {
        Some(m) => ast.assign_for(m as int, name),
        None => None,
    }
}

/// Whether the application `e` is a call that can be carried out now, and of what.
pub open spec fn valid_call(ast: &AST, lt: &LabelTable, module: Option<usize>, e: int) -> Option<CallKind> {
    let h = app_head(ast, e);
    let args = spine_args(ast, e);
    let n = args.len();
    if ast.vec@[h].t == ASTNodeType::Identifier {
        match lt.lookup(ast.value_of(h)) {
            None => None,
            Some(label) => match label.inbuilt {
                Some(op) => if label.reduction_arity == n && literals_only(ast, args) && inbuilt_defined(
                    op,
                    arg_nodes(ast, args),
                ) {
                    Some(CallKind::Inbuilt)
                } else {
                    None
                },
                None => match module_assign(ast, module, ast.value_of(h)) {
                    None => None,
                    Some(a) => {
                        let ae = ast.child(a as int, 1) as int;
                        if ast.abstr_depth(ae, n) == n && pairs_fit(ast, args, ae) {
                            Some(CallKind::Function)
                        } else {
                            None
                        }
                    },
                },
            },
        }
    } else if ast.vec@[h].t == ASTNodeType::Abstraction {
        if ast.vec@[h].wait_for_args && literals_only(ast, args) {
            None
        } else if ast.abstr_depth(h, n) == n && pairs_fit(ast, args, h) {
            Some(CallKind::Abstraction)
        } else {
            None
        }
    } else {
        None
    }
}

/// An argument as written in a message: applications and abstractions in brackets.
pub open spec fn arg_str(ast: &AST, i: int) -> Seq<char> {
    let t = ast.vec@[i].t;
    if t == ASTNodeType::Application || t == ASTNodeType::Abstraction {
        paren(ast.sugar(i, false))
    } else {
        ast.sugar(i, false)
    }
}

/// The arguments as written in a message, the first argument first.
pub open spec fn arg_list(ast: &AST, args: Seq<usize>) -> Seq<Seq<char>> {
    Seq::new(args.len(), |k: int| arg_str(ast, args[args.len() - 1 - k] as int))
}

/// `a, b, c`.
pub open spec fn join_commas(v: Seq<Seq<char>>) -> Seq<char>
    decreases v.len(),
{
    if v.len() == 0 {
        Seq::empty()
    } else if v.len() == 1 {
        v[0]
    } else {
        join_commas(v.drop_last()) + ", "@ + v.last()
    }
}

/// `a, b and c`.
pub open spec fn comma_join(v: Seq<Seq<char>>) -> Seq<char> {
    if v.len() <= 1 {
        join_commas(v)
    } else {
        join_commas(v.drop_last()) + " and "@ + v.last()
    }
}

/// The index of the first case of match `e`, from case `k` on, that the inspected
/// expression is not refuted by.
pub open spec fn first_case(ast: &AST, e: int, k: nat) -> Option<nat>
    decreases ast.vec@[e].children@.len() - 2 * k,
{
    let n = ast.vec@[e].children@.len();
    if 2 * k + 1 >= n {
        None
    } else if match_spec(ast, ast.child(e, 0) as int, ast.child(e, 2 * k as int + 1) as int) is Refute {
        first_case(ast, e, k + 1)
    } else {
        Some(k)
    }
}

/// The redex that is contracted first within `e`, if any: a call at an application
/// before anything inside it, the function before the argument, the first side of a pair
/// before the second; a named label; a match once a case matches, and otherwise the
/// inspected expression.
pub open spec fn single_from(ast: &AST, lt: &LabelTable, module: Option<usize>, e: int) -> Option<usize>
    decreases ast.measure(e),
{
    if !(ast.wf() && ast.valid(e)) {
        None
    } else {
        proof { ast.lemma_node(e); }
        let t = ast.vec@[e].t;
        if t == ASTNodeType::Pair {
            match single_from(ast, lt, module, ast.child(e, 0) as int) {
                Some(x) => Some(x),
                None => single_from(ast, lt, module, ast.child(e, 1) as int),
            }
        } else if t == ASTNodeType::Identifier {
            match lt.lookup(ast.value_of(e)) {
                None => None,
                Some(label) => match label.inbuilt {
                    Some(op) => if label.reduction_arity == 0 && inbuilt_defined(op, Seq::empty()) {
                        Some(e as usize)
                    } else {
                        None
                    },
                    None => if module_assign(ast, module, ast.value_of(e)) is Some {
                        Some(e as usize)
                    } else {
                        None
                    },
                },
            }
        } else if t == ASTNodeType::Application {
            if valid_call(ast, lt, module, e) is Some {
                Some(e as usize)
            } else {
                match single_from(ast, lt, module, ast.child(e, 0) as int) {
                    Some(x) => Some(x),
                    None => single_from(ast, lt, module, ast.child(e, 1) as int),
                }
            }
        } else if t == ASTNodeType::Match {
            let u = ast.child(e, 0) as int;
            match first_case(ast, e, 0) {
                Some(c) => if match_spec(ast, u, ast.child(e, 2 * c as int + 1) as int) is Success {
                    Some(e as usize)
                } else {
                    single_from(ast, lt, module, u)
                },
                None => single_from(ast, lt, module, u),
            }
        } else {
            None
        }
    }
}

/// Every redex within `e` that can be contracted, in the order they are found: at an
/// application the call itself, then those in the function, then those in the argument;
/// in a pair the first side, then the second; at a label or a match the one that
/// `single_from` picks.
pub open spec fn all_froms(ast: &AST, lt: &LabelTable, module: Option<usize>, e: int) -> Seq<usize>
    decreases ast.measure(e),
{
    if !(ast.wf() && ast.valid(e)) {
        Seq::empty()
    } else {
        proof { ast.lemma_node(e); }
        let t = ast.vec@[e].t;
        if t == ASTNodeType::Application {
            (if valid_call(ast, lt, module, e) is Some { seq![e as usize] } else { Seq::empty() })
                + all_froms(ast, lt, module, ast.child(e, 0) as int) + all_froms(ast, lt, module, ast.child(e, 1) as int)
        } else if t == ASTNodeType::Pair {
            all_froms(ast, lt, module, ast.child(e, 0) as int) + all_froms(ast, lt, module, ast.child(e, 1) as int)
        } else if t == ASTNodeType::Identifier || t == ASTNodeType::Match {
            match single_from(ast, lt, module, e) {
                Some(x) => seq![x],
                None => Seq::empty(),
            }
        } else {
            Seq::empty()
        }
    }
}

/// What a redex found at `rc.from` contracts to, and how the step is described.
pub open spec fn rc_right(ast: &AST, lt: &LabelTable, module: Option<usize>, rc: RCPair) -> bool {
    let e = rc.from as int;
    let t = ast.vec@[e].t;
    if t == ASTNodeType::Application {
        let h = app_head(ast, e);
        let args = spine_args(ast, e);
        let list = comma_join(arg_list(ast, args));
        let name = ast.value_of(h);
        match valid_call(ast, lt, module, e) {
            Some(CallKind::Inbuilt) => {
                &&& inbuilt_result(lt.lookup(name)->0.inbuilt->0, arg_nodes(ast, args), ast.vec@[h], rc.to)
                &&& rc.msg_after@ == "Applied inbuilt "@ + name + " to "@ + list
                &&& rc.msg_before@ == "Apply inbuilt "@ + name + " to "@ + list
            },
            Some(CallKind::Function) => {
                let ae = ast.child(module_assign(ast, module, name)->0 as int, 1) as int;
                &&& term(&rc.to, rc.to.root as int) == apply_args(term(ast, ae), arg_terms(ast, args))
                &&& rc.msg_after@ == "Applied function "@ + name + " to "@ + list
                &&& rc.msg_before@ == "Apply function "@ + name + " to "@ + list
            },
            Some(CallKind::Abstraction) => {
                &&& term(&rc.to, rc.to.root as int) == apply_args(term(ast, h), arg_terms(ast, args))
                &&& rc.msg_after@ == "Apply abstraction to "@ + list
                &&& rc.msg_before@ == "Apply abstraction to "@ + list
            },
            None => false,
        }
    } else if t == ASTNodeType::Identifier {
        let v = ast.value_of(e);
        let label = lt.lookup(v)->0;
        &&& match label.inbuilt {
            Some(op) => inbuilt_result(op, Seq::empty(), ast.vec@[e], rc.to),
            None => term(&rc.to, rc.to.root as int) == term(ast, ast.child(module_assign(ast, module, v)->0 as int, 1) as int),
        }
        &&& rc.msg_after@ == "Substituted label "@ + v
        &&& rc.msg_before@ == "Substitute label "@ + v
    } else if t == ASTNodeType::Match {
        let c = first_case(ast, e, 0)->0;
        let p = ast.sugar(ast.child(e, 2 * c as int + 1) as int, false);
        let binds = match_spec(ast, ast.child(e, 0) as int, ast.child(e, 2 * c as int + 1) as int)->Success_0;
        &&& term(&rc.to, rc.to.root as int) == subst_each(term(ast, ast.child(e, 2 * c as int + 2) as int), named_terms(ast, binds))
        &&& rc.msg_after@ == "Matched to pattern "@ + p
        &&& rc.msg_before@ == "Match to pattern "@ + p
    } else {
        false
    }
}

/// The patterns of every match in the tree are patterns of the language.
pub open spec fn match_patterns_ok(ast: &AST) -> bool {
    forall|i: int, k: int|
        0 <= i < ast.vec@.len() && ast.vec@[i].t == ASTNodeType::Match && 0 <= k && 2 * k + 1 < ast.vec@[i].children@.len()
            ==> pattern_ok(ast, #[trigger] ast.vec@[i].children@[2 * k + 1] as int)
}

/// `am` maps the names of the module to the assignments they stand for (empty without a
/// module).
pub open spec fn assigns_map_of(ast: &AST, module: Option<usize>, am: Seq<(String, usize)>) -> bool {
    match module {
        None => am.len() == 0,
        Some(m) => {
            &&& forall|k: int| 0 <= k < am.len() ==> ast.assign_for(m as int, (#[trigger] am[k]).0@) == Some(am[k].1)
            &&& forall|a: usize| ast.module_assigns(m as int).contains(a) ==> exists|k: int| 0 <= k < am.len() && #[trigger] am[k].0@ == ast.assign_name(a as int)
        },
    }
}

/// The requirements on the inputs of redex finding.
pub open spec fn search_ok(ast: &AST, lt: &LabelTable, module: Option<usize>) -> bool {
    &&& ast.wf()
    &&& lt.wf()
    &&& match_patterns_ok(ast)
    &&& module matches Some(m) ==> (m as int) < ast.vec@.len() && ast.vec@[m as int].t == ASTNodeType::Module
}

pub proof fn lemma_last_assign(ast: &AST, cs: Seq<usize>, name: Seq<char>, k: nat)
    requires
        ast.last_assign(cs, name, k) is Some,
    ensures
        cs.contains(ast.last_assign(cs, name, k)->0),
        ast.assign_name(ast.last_assign(cs, name, k)->0 as int) == name,
    decreases k,
{
    if k > 0 && k <= cs.len() && ast.assign_name(cs[k - 1] as int) != name {
        lemma_last_assign(ast, cs, name, (k - 1) as nat);
    } else {
        assert(cs[k - 1] == cs[k - 1]);
    }
}

/// Looks a name up in the names of the module.
fn lookup_assign(ast: &AST, module: Ghost<Option<usize>>, am: &Vec<(String, usize)>, name: &String) -> (r: Option<usize>)
    requires
        ast.wf(),
        module@ matches Some(m) ==> (m as int) < ast.vec@.len() && ast.vec@[m as int].t == ASTNodeType::Module,
        assigns_map_of(ast, module@, am@),
    ensures
        r == module_assign(ast, module@, name@),
        r matches Some(a) ==> (a as int) < ast.vec@.len() && ast.vec@[a as int].t == ASTNodeType::Assignment,
{
    match crate::ast::position_of(am, name) {
        Some(x) => {
            let a = am[x].1;
            proof {
                let m = module@->0;
                assert(ast.assign_for(m as int, am@[x as int].0@) == Some(am@[x as int].1));
                lemma_last_assign(ast, ast.module_assigns(m as int), name@, ast.module_assigns(m as int).len());
                let j = choose|j: int| 0 <= j < ast.module_assigns(m as int).len() && ast.module_assigns(m as int)[j] == a;
                ast.lemma_node(m as int);
                assert(ast.node_ok(m as int));
                assert(ast.child_ok(m as int, ast.vec@[m as int].children@[j]));
            }
            Some(a)
        },
        None => {
            proof {
                if let Some(m) = module@ {
                    let cs = ast.module_assigns(m as int);
                    if ast.assign_for(m as int, name@) is Some {
                        lemma_last_assign(ast, cs, name@, cs.len());
                        let a = ast.assign_for(m as int, name@)->0;
                        let k = choose|k: int| 0 <= k < am@.len() && #[trigger] am@[k].0@ == ast.assign_name(a as int);
                        assert(am@[k].0@ != name@);
                    }
                }
            }
            None
        },
    }
}

/// The head of the applications nested at `e` and their arguments, the last first.
fn spine(ast: &AST, e: usize) -> (r: (usize, Vec<usize>))
    requires
        ast.wf(),
        e < ast.vec@.len(),
    ensures
        r.0 as int == app_head(ast, e as int),
        r.0 < ast.vec@.len(),
        r.1@ == spine_args(ast, e as int),
        forall|k: int| 0 <= k < r.1@.len() ==> (#[trigger] r.1@[k] as int) < ast.vec@.len()
            && is_expr_kind(ast.vec@[r.1@[k] as int].t),
    decreases ast.measure(e as int),
{
    proof { ast.lemma_node(e as int); }
    if ast.vec[e].t == ASTNodeType::Application {
        let f = ast.get_func(e);
        let x = ast.get_arg(e);
        let (h, rest) = spine(ast, f);
        let mut args = vec![x];
        crate::transform::append_indices(&mut args, &rest);
        proof {
            assert(args@ =~= seq![x] + rest@);
            assert forall|k: int| 0 <= k < args@.len() implies (#[trigger] args@[k] as int) < ast.vec@.len()
                && is_expr_kind(ast.vec@[args@[k] as int].t) by {
                if k > 0 {
                    assert(args@[k] == rest@[k - 1]);
                }
            }
        }
        (h, args)
    } else {
        (e, Vec::new())
    }
}

/// `a, b and c` from `[a, b, c]`.
fn comma_ify(v: &Vec<String>) -> (r: String)
    ensures
        r@ == comma_join(Seq::new(v@.len(), |k: int| v@[k]@)),
{
    let ghost sv = Seq::new(v@.len(), |k: int| v@[k]@);
    let n = v.len();
    if n == 0 {
        return String::new();
    }
    if n == 1 {
        return v[0].clone();
    }
    let mut s = v[0].clone();
    let mut k: usize = 1;
    assert(sv.take(1).drop_last() =~= Seq::<Seq<char>>::empty());
    while k + 1 < n
        invariant
            1 <= k < n,
            n == v@.len(),
            sv == Seq::new(v@.len(), |k: int| v@[k]@),
            s@ == join_commas(sv.take(k as int)),
        decreases n - k,
    {
        push_str(&mut s, ", ");
        push_str(&mut s, v[k].as_str());
        assert(sv.take(k + 1).drop_last() =~= sv.take(k as int));
        k = k + 1;
    }
    push_str(&mut s, " and ");
    push_str(&mut s, v[n - 1].as_str());
    assert(sv.drop_last() =~= sv.take(k as int));
    s
}

/// The arguments as written in a message, the first argument first.
fn args_text(ast: &AST, args: &Vec<usize>) -> (r: String)
    requires
        ast.wf(),
        forall|k: int| 0 <= k < args@.len() ==> (#[trigger] args@[k] as int) < ast.vec@.len(),
    ensures
        r@ == comma_join(arg_list(ast, args@)),
{
    let n = args.len();
    let mut strs: Vec<String> = Vec::new();
    let mut k: usize = 0;
    while k < n
        invariant
            ast.wf(),
            n == args@.len(),
            k <= n,
            forall|j: int| 0 <= j < args@.len() ==> (#[trigger] args@[j] as int) < ast.vec@.len(),
            strs@.len() == k,
            forall|j: int| 0 <= j < k ==> (#[trigger] strs@[j])@ == arg_str(ast, args@[n - 1 - j] as int),
        decreases n - k,
    {
        let i = args[n - 1 - k];
        let t = ast.vec[i].t;
        let s0 = ast.to_string_sugar(i, false);
        let s = if t == ASTNodeType::Application || t == ASTNodeType::Abstraction {
            crate::output::paren_string(s0)
        } else {
            s0
        };
        strs.push(s);
        k = k + 1;
    }
    assert(Seq::new(strs@.len(), |k: int| strs@[k]@) =~= arg_list(ast, args@));
    comma_ify(&strs)
}

/// Whether every argument is a literal.
fn all_literals(ast: &AST, args: &Vec<usize>) -> (r: bool)
    requires
        forall|k: int| 0 <= k < args@.len() ==> (#[trigger] args@[k] as int) < ast.vec@.len(),
    ensures
        r == literals_only(ast, args@),
{
    let mut k: usize = 0;
    while k < args.len()
        invariant
            k <= args@.len(),
            forall|j: int| 0 <= j < args@.len() ==> (#[trigger] args@[j] as int) < ast.vec@.len(),
            forall|j: int| 0 <= j < k ==> ast.vec@[#[trigger] args@[j] as int].t == ASTNodeType::Literal,
        decreases args@.len() - k,
    {
        if ast.vec[args[k]].t != ASTNodeType::Literal {
            return false;
        }
        k = k + 1;
    }
    true
}

/// Whether each argument is a pair where the abstraction takes one.
fn pairs_fit_exec(ast: &AST, args: &Vec<usize>, vars: &Vec<usize>, a: Ghost<int>) -> (r: bool)
    requires
        args@.len() == vars@.len(),
        forall|k: int| 0 <= k < args@.len() ==> (#[trigger] args@[k] as int) < ast.vec@.len(),
        forall|k: int| 0 <= k < vars@.len() ==> (#[trigger] vars@[k] as int) < ast.vec@.len()
            && vars@[k] == ast.abstr_var_at(a@, k as nat),
    ensures
        r == pairs_fit(ast, args@, a@),
{
    let mut k: usize = 0;
    while k < args.len()
        invariant
            k <= args@.len(),
            args@.len() == vars@.len(),
            forall|j: int| 0 <= j < args@.len() ==> (#[trigger] args@[j] as int) < ast.vec@.len(),
            forall|j: int| 0 <= j < vars@.len() ==> (#[trigger] vars@[j] as int) < ast.vec@.len()
                && vars@[j] == ast.abstr_var_at(a@, j as nat),
            forall|j: int| 0 <= j < k && ast.vec@[#[trigger] args@[j] as int].t != ASTNodeType::Pair
                ==> ast.vec@[ast.abstr_var_at(a@, j as nat) as int].t != ASTNodeType::Pair,
        decreases args@.len() - k,
    {
        if ast.vec[args[k]].t != ASTNodeType::Pair && ast.vec[vars[k]].t == ASTNodeType::Pair {
            return false;
        }
        k = k + 1;
    }
    true
}

/// The nested abstractions at `a` take the arguments: as many abstractions as arguments,
/// and a pair wherever one is taken.
fn takes_args(ast: &AST, a: usize, args: &Vec<usize>) -> (r: bool)
    requires
        ast.wf(),
        a < ast.vec@.len(),
        forall|k: int| 0 <= k < args@.len() ==> (#[trigger] args@[k] as int) < ast.vec@.len(),
    ensures
        r == (ast.abstr_depth(a as int, args@.len()) == args@.len() && pairs_fit(ast, args@, a as int)),
{
    let vars = ast.get_n_abstr_vars(a, args.len());
    if vars.len() != args.len() {
        return false;
    }
    pairs_fit_exec(ast, args, &vars, Ghost(a as int))
}

pub proof fn lemma_depth_abstraction(ast: &AST, a: int, n: nat)
    requires
        n > 0,
        ast.abstr_depth(a, n) == n,
    ensures
        ast.valid(a),
        ast.vec@[a].t == ASTNodeType::Abstraction,
{
}

pub proof fn lemma_inbuilt_ok(op: crate::labels::Inbuilt, args: Seq<ASTNode>, call: ASTNode, r: AST)
    requires
        inbuilt_defined(op, args),
        inbuilt_result(op, args, call, r),
    ensures
        r.wf(),
        r.root < r.vec@.len(),
        is_expr_kind(r.vec@[r.root as int].t),
{
}

/// A message: the three pieces one after the other.
fn msg3(a: &str, b: &String, c: &str, d: &String) -> (r: String)
    ensures
        r@ == a@ + b@ + c@ + d@,
{
    let mut s = lit(a);
    push_str(&mut s, b.as_str());
    push_str(&mut s, c);
    push_str(&mut s, d.as_str());
    s
}

/// The redex at the application `expr`, where it is a call that can be carried out now:
/// an inbuilt applied to as many literals as it needs, a function of the module or an
/// abstraction applied to as many arguments as it has variables.
#[verifier::loop_isolation(false)]
fn check_for_valid_call(ast: &AST, expr: usize, lt: &LabelTable, am: &Vec<(String, usize)>, module: Ghost<Option<usize>>) -> (r: Option<RCPair>)
    requires
        search_ok(ast, lt, module@),
        expr < ast.vec@.len(),
        ast.vec@[expr as int].t == ASTNodeType::Application,
        assigns_map_of(ast, module@, am@),
    ensures
        r is Some <==> valid_call(ast, lt, module@, expr as int) is Some,
        r matches Some(rc) ==> rc.from == expr && rc.ok() && rc_right(ast, lt, module@, rc),
{
    let (h, args) = spine(ast, expr);
    proof { ast.lemma_node(expr as int); }
    assert(args@.len() > 0);
    let hn = &ast.vec[h];
    proof { ast.lemma_node(h as int); }
    if hn.t == ASTNodeType::Identifier {
        let name = hn.get_value();
        match lt.get_by_name(&name) {
            None => None,
            Some(label) => {
                if label.is_inbuilt() {
                    if label.reduction_arity != args.len() {
                        return None;
                    }
                    if !all_literals(ast, &args) {
                        return None;
                    }
                    let mut argv: Vec<&ASTNode> = Vec::new();
                    let mut k: usize = 0;
                    while k < args.len()
                        invariant
                            k <= args@.len(),
                            argv@.len() == k,
                            forall|j: int| 0 <= j < args@.len() ==> (#[trigger] args@[j] as int) < ast.vec@.len(),
                            forall|j: int| 0 <= j < k ==> *(#[trigger] argv@[j]) == ast.vec@[args@[j] as int],
                        decreases args@.len() - k,
                    {
                        argv.push(&ast.vec[args[k]]);
                        k = k + 1;
                    }
                    assert(nodes_of(argv@) =~= arg_nodes(ast, args@));
                    match label.try_call_inbuilt(hn, &argv) {
                        Some(to) => {
                            proof { lemma_inbuilt_ok(label.inbuilt->0, nodes_of(argv@), *hn, to); }
                            let list = args_text(ast, &args);
                            let msg_after = msg3("Applied inbuilt ", &name, " to ", &list);
                            let msg_before = msg3("Apply inbuilt ", &name, " to ", &list);
                            Some(RCPair { from: expr, to, msg_after, msg_before })
                        },
                        None => None,
                    }
                } else {
                    match lookup_assign(ast, module, am, &name) {
                        None => None,
                        Some(assign) => {
                            let ae = ast.get_assign_exp(assign);
                            if !takes_args(ast, ae, &args) {
                                return None;
                            }
                            proof { lemma_depth_abstraction(ast, ae as int, args@.len()); }
                            let list = args_text(ast, &args);
                            let to = ast.do_multiple_abst_substs(ae, args);
                            let msg_after = msg3("Applied function ", &name, " to ", &list);
                            let msg_before = msg3("Apply function ", &name, " to ", &list);
                            Some(RCPair { from: expr, to, msg_after, msg_before })
                        },
                    }
                }
            },
        }
    } else if hn.t == ASTNodeType::Abstraction {
        if hn.wait_for_args && all_literals(ast, &args) {
            return None;
        }
        if !takes_args(ast, h, &args) {
            return None;
        }
        let list = args_text(ast, &args);
        let to = ast.do_multiple_abst_substs(h, args);
        let empty = String::new();
        let msg_after = msg3("Apply abstraction to ", &empty, "", &list);
        let msg_before = msg3("Apply abstraction to ", &empty, "", &list);
        proof {
            reveal_strlit("");
        }
        Some(RCPair { from: expr, to, msg_after, msg_before })
    } else {
        None
    }
}

/// The contraction of a match whose case `pattern -> pexp` matched with `bindings`: the
/// case's expression with each bound variable replaced by what it matched, one binding
/// after the other (see `subst_each`).
fn substitute_bindings(ast: &AST, pexp: usize, bindings: &Vec<(String, usize)>) -> (r: AST)
    requires
        ast.wf(),
        pexp < ast.vec@.len(),
        is_expr_kind(ast.vec@[pexp as int].t),
        binds_within(ast, binds_view(bindings@)),
    ensures
        r.wf(),
        r.root < r.vec@.len(),
        is_expr_kind(r.vec@[r.root as int].t),
        term(&r, r.root as int) == subst_each(term(ast, pexp as int), named_terms(ast, binds_view(bindings@))),
{
    let ghost named = named_terms(ast, binds_view(bindings@));
    let ghost t0 = term(ast, pexp as int);
    let mut c = ast.clone_node(pexp);
    proof {
        assert(named.take(0) =~= Seq::<(Seq<char>, Term)>::empty());
    }
    let mut j: usize = 0;
    while j < bindings.len()
        invariant
            ast.wf(),
            binds_within(ast, binds_view(bindings@)),
            named == named_terms(ast, binds_view(bindings@)),
            j <= bindings@.len(),
            c.wf(),
            c.root < c.vec@.len(),
            is_expr_kind(c.vec@[c.root as int].t),
            term(&c, c.root as int) == subst_each(t0, named.take(j as int)),
        decreases bindings@.len() - j,
    {
        let repl = bindings[j].1;
        assert(binds_view(bindings@)[j as int].1 == repl);
        let ghost before = c;
        let x = c.append(ast, repl);
        proof {
            crate::term::lemma_term_kept(&before, &c, c.root as int);
        }
        let sigma = vec![(bindings[j].0.clone(), x)];
        let mut c2 = AST::new();
        let root2 = c2.append_subst(&c, c.root, &sigma);
        let ghost mid = c2;
        c2.root = root2;
        proof {
            crate::term::lemma_term_kept(&mid, &c2, root2 as int);
            let b = named[j as int];
            assert(crate::term::bindings_view(&c, sigma@) =~= seq![b]);
            assert(seq![b].drop_last() =~= Seq::<(Seq<char>, Term)>::empty());
            assert(crate::term::first_wins(seq![b].drop_last()) =~= Map::<Seq<char>, Term>::empty());
            assert(crate::term::first_wins(seq![b]) =~= map![b.0 => b.1]);
            assert(named.take(j + 1).drop_last() =~= named.take(j as int));
        }
        c = c2;
        j = j + 1;
    }
    proof {
        assert(named.take(bindings@.len() as int) =~= named);
    }
    c
}

/// The redex within `expr` that is contracted first (see `single_from`).
#[verifier::loop_isolation(false)]
fn single_rc(ast: &AST, expr: usize, lt: &LabelTable, am: &Vec<(String, usize)>, module: Ghost<Option<usize>>) -> (r: Option<RCPair>)
    requires
        search_ok(ast, lt, module@),
        expr < ast.vec@.len(),
        assigns_map_of(ast, module@, am@),
    ensures
        r matches Some(rc) ==> Some(rc.from) == single_from(ast, lt, module@, expr as int) && rc.ok()
            && rc_right(ast, lt, module@, rc),
        r is None ==> single_from(ast, lt, module@, expr as int) is None,
    decreases ast.measure(expr as int),
{
    proof { ast.lemma_node(expr as int); }
    let t = ast.vec[expr].t;
    if t == ASTNodeType::Pair {
        let a = ast.vec[expr].children[0];
        let b = ast.vec[expr].children[1];
        match single_rc(ast, a, lt, am, module) {
            Some(rc) => Some(rc),
            None => single_rc(ast, b, lt, am, module),
        }
    } else if t == ASTNodeType::Identifier {
        let n = &ast.vec[expr];
        let value = n.get_value();
        match lt.get_by_name(&value) {
            None => None,
            Some(label) => {
                let msg_after = msg3("Substituted label ", &value, "", &String::new());
                let msg_before = msg3("Substitute label ", &value, "", &String::new());
                proof { reveal_strlit(""); }
                if label.is_inbuilt() {
                    if label.reduction_arity != 0 {
                        return None;
                    }
                    let argv: Vec<&ASTNode> = Vec::new();
                    assert(nodes_of(argv@) =~= Seq::<ASTNode>::empty());
                    match label.try_call_inbuilt(n, &argv) {
                        Some(to) => {
                            proof { lemma_inbuilt_ok(label.inbuilt->0, nodes_of(argv@), *n, to); }
                            Some(RCPair { from: expr, to, msg_after, msg_before })
                        },
                        None => None,
                    }
                } else {
                    match lookup_assign(ast, module, am, &value) {
                        None => None,
                        Some(assign) => {
                            let ae = ast.get_assign_exp(assign);
                            let to = ast.clone_node(ae);
                            Some(RCPair { from: expr, to, msg_after, msg_before })
                        },
                    }
                }
            },
        }
    } else if t == ASTNodeType::Application {
        match check_for_valid_call(ast, expr, lt, am, module) {
            Some(rc) => Some(rc),
            None => {
                let f = ast.vec[expr].children[0];
                let x = ast.vec[expr].children[1];
                match single_rc(ast, f, lt, am, module) {
                    Some(rc) => Some(rc),
                    None => single_rc(ast, x, lt, am, module),
                }
            },
        }
    } else if t == ASTNodeType::Match {
        let u = ast.get_match_unpack_pattern(expr);
        let cases = ast.get_match_cases(expr);
        let mut k: usize = 0;
        while k < cases.len()
            invariant
                k <= cases@.len(),
                first_case(ast, expr as int, 0) == first_case(ast, expr as int, k as nat),
            decreases cases@.len() - k,
        {
            let (pat, pexp) = cases[k];
            assert(pat == ast.vec@[expr as int].children@[2 * k + 1]);
            assert(pexp == ast.vec@[expr as int].children@[2 * k + 2]);
            let res = pattern_match(ast, u, pat);
            match res {
                PatternMatchResult::Success(bindings) => {
                    let case_str = ast.to_string_sugar(pat, false);
                    let to = substitute_bindings(ast, pexp, &bindings);
                    let empty = String::new();
                    let msg_after = msg3("Matched to pattern ", &case_str, "", &empty);
                    let msg_before = msg3("Match to pattern ", &case_str, "", &empty);
                    proof { reveal_strlit(""); }
                    return Some(RCPair { from: expr, to, msg_after, msg_before });
                },
                PatternMatchResult::Unknown => {
                    return single_rc(ast, u, lt, am, module);
                },
                PatternMatchResult::Refute => {},
            }
            k = k + 1;
        }
        single_rc(ast, u, lt, am, module)
    } else {
        None
    }
}

/// Every redex within the expression `expr` (see `all_froms`).
#[verifier::loop_isolation(false)]
fn all_rcs(ast: &AST, expr: usize, lt: &LabelTable, am: &Vec<(String, usize)>, module: Ghost<Option<usize>>) -> (r: Vec<RCPair>)
    requires
        search_ok(ast, lt, module@),
        expr < ast.vec@.len(),
        is_expr_kind(ast.vec@[expr as int].t),
        assigns_map_of(ast, module@, am@),
    ensures
        r@.len() == all_froms(ast, lt, module@, expr as int).len(),
        forall|k: int| 0 <= k < r@.len() ==> (#[trigger] r@[k]).from == all_froms(ast, lt, module@, expr as int)[k]
            && r@[k].ok() && rc_right(ast, lt, module@, r@[k]),
    decreases ast.measure(expr as int),
{
    proof { ast.lemma_node(expr as int); }
    let t = ast.vec[expr].t;
    let mut pairs: Vec<RCPair> = Vec::new();
    if t == ASTNodeType::Application || t == ASTNodeType::Pair {
        if t == ASTNodeType::Application {
            match check_for_valid_call(ast, expr, lt, am, module) {
                Some(rc) => pairs.push(rc),
                None => {},
            }
        }
        let a = ast.vec[expr].children[0];
        let b = ast.vec[expr].children[1];
        let left = all_rcs(ast, a, lt, am, module);
        let right = all_rcs(ast, b, lt, am, module);
        let ghost p0 = pairs@;
        push_all(&mut pairs, left);
        push_all(&mut pairs, right);
        proof {
            let fa = all_froms(ast, lt, module@, a as int);
            let fb = all_froms(ast, lt, module@, b as int);
            let own: Seq<usize> = if t == ASTNodeType::Application && valid_call(ast, lt, module@, expr as int) is Some {
                seq![expr]
            } else {
                Seq::empty()
            };
            assert(all_froms(ast, lt, module@, expr as int) =~= own + fa + fb);
            assert forall|k: int| 0 <= k < pairs@.len() implies (#[trigger] pairs@[k]).from == (own + fa + fb)[k]
                && pairs@[k].ok() && rc_right(ast, lt, module@, pairs@[k]) by {
                if k < p0.len() {
                } else if k < p0.len() + fa.len() {
                    assert(pairs@[k] == left@[k - p0.len()]);
                } else {
                    assert(pairs@[k] == right@[k - p0.len() - fa.len()]);
                }
            }
        }
        pairs
    } else if t == ASTNodeType::Identifier || t == ASTNodeType::Match {
        match single_rc(ast, expr, lt, am, module) {
            Some(rc) => pairs.push(rc),
            None => {},
        }
        pairs
    } else {
        pairs
    }
}

/// Appends the redexes of `b` to `a`.
fn push_all(a: &mut Vec<RCPair>, b: Vec<RCPair>)
    ensures
        final(a)@ == old(a)@ + b@,
{
    let mut b = b;
    a.append(&mut b);
}

/// The names of the module and the assignments they stand for (none without a module).
fn assigns_of(ast: &AST, module: Option<usize>) -> (r: Vec<(String, usize)>)
    requires
        ast.wf(),
        module matches Some(m) ==> (m as int) < ast.vec@.len() && ast.vec@[m as int].t == ASTNodeType::Module,
    ensures
        assigns_map_of(ast, module, r@),
{
    match module {
        Some(m) => ast.get_assigns_map(m),
        None => Vec::new(),
    }
}

/// Every redex within the expression `expr` that can be contracted now, with what it
/// contracts to, in the order of `all_froms`. The names of `module`, if given, stand for
/// the expressions assigned to them; `lt` holds the inbuilts and the typed labels.
pub fn find_all_redex_contraction_pairs(ast: &AST, module: Option<usize>, expr: usize, lt: &LabelTable) -> (r: Vec<RCPair>)
    requires
        search_ok(ast, lt, module),
        expr < ast.vec@.len(),
        is_expr_kind(ast.vec@[expr as int].t),
    ensures
        r@.len() == all_froms(ast, lt, module, expr as int).len(),
        forall|k: int| 0 <= k < r@.len() ==> (#[trigger] r@[k]).from == all_froms(ast, lt, module, expr as int)[k]
            && r@[k].ok() && rc_right(ast, lt, module, r@[k]),
{
    let am = assigns_of(ast, module);
    all_rcs(ast, expr, lt, &am, Ghost(module))
}

/// The redex within `expr` that is contracted first under lazy evaluation (see
/// `single_from`), with what it contracts to.
pub fn find_single_redex_contraction_pair(ast: &AST, module: Option<usize>, expr: usize, lt: &LabelTable) -> (r: Option<RCPair>)
    requires
        search_ok(ast, lt, module),
        expr < ast.vec@.len(),
    ensures
        r matches Some(rc) ==> Some(rc.from) == single_from(ast, lt, module, expr as int) && rc.ok()
            && rc_right(ast, lt, module, rc),
        r is None ==> single_from(ast, lt, module, expr as int) is None,
{
    let am = assigns_of(ast, module);
    single_rc(ast, expr, lt, &am, Ghost(module))
}

/// Whether the node `p` is a pattern of the language (see `pattern_ok`).
pub fn is_pattern(ast: &AST, p: usize) -> (r: bool)
    requires
        ast.wf(),
        p < ast.vec@.len(),
    ensures
        r == pattern_ok(ast, p as int),
    decreases ast.measure(p as int),
{
    proof { ast.lemma_node(p as int); }
    let n = &ast.vec[p];
    if n.t == ASTNodeType::Identifier {
        let v = n.get_value();
        match crate::text::first_char(&v) {
            Some(c) => ('a' <= c && c <= 'z') || c == '_' || ('A' <= c && c <= 'Z'),
            None => false,
        }
    } else if n.t == ASTNodeType::Literal {
        true
    } else if n.t == ASTNodeType::Application || n.t == ASTNodeType::Pair {
        is_pattern(ast, n.children[0]) && is_pattern(ast, n.children[1])
    } else {
        false
    }
}

/// Whether the patterns of every match in the tree are patterns of the language (see
/// `match_patterns_ok`).
pub fn patterns_checked(ast: &AST) -> (r: bool)
    requires
        ast.wf(),
    ensures
        r == match_patterns_ok(ast),
{
    let mut i: usize = 0;
    while i < ast.vec.len()
        invariant
            ast.wf(),
            i <= ast.vec@.len(),
            forall|j: int, k: int|
                0 <= j < i && ast.vec@[j].t == ASTNodeType::Match && 0 <= k && 2 * k + 1 < ast.vec@[j].children@.len()
                    ==> pattern_ok(ast, #[trigger] ast.vec@[j].children@[2 * k + 1] as int),
        decreases ast.vec@.len() - i,
    {
        if ast.vec[i].t == ASTNodeType::Match {
            proof { ast.lemma_node(i as int); }
            let cs = &ast.vec[i].children;
            let mut m: usize = 0;
            while m < cs.len() / 2
                invariant
                    ast.wf(),
                    i < ast.vec@.len(),
                    ast.vec@[i as int].t == ASTNodeType::Match,
                    *cs == ast.vec@[i as int].children,
                    forall|j: int| 0 <= j < cs@.len() ==> (#[trigger] cs@[j] as int) < ast.vec@.len(),
                    forall|x: int| 0 <= x < m && 2 * x + 1 < cs@.len() ==> pattern_ok(ast, #[trigger] cs@[2 * x + 1] as int),
                    m <= cs@.len() / 2,
                decreases cs@.len() / 2 - m,
            {
                if !is_pattern(ast, cs[2 * m + 1]) {
                    proof {
                        let mi = m as int;
                        assert(!pattern_ok(ast, ast.vec@[i as int].children@[2 * mi + 1] as int));
                        assert(2 * mi + 1 < ast.vec@[i as int].children@.len());
                        assert(!match_patterns_ok(ast)) by {
                            if match_patterns_ok(ast) {
                                assert(pattern_ok(ast, ast.vec@[i as int].children@[2 * mi + 1] as int));
                            }
                        }
                    }
                    return false;
                }
                m = m + 1;
            }
            proof {
                assert forall|x: int| 0 <= x && 2 * x + 1 < cs@.len() implies pattern_ok(ast, #[trigger] cs@[2 * x + 1] as int) by {
                    assert(x < m);
                }
            }
        }
        i = i + 1;
    }
    true
}

} // verus!
