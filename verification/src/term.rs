//! The expression a node of a syntax tree stands for, as a tree of its own, and
//! substitution on such expressions.
use vstd::prelude::*;

use crate::ast::{ASTNode, ASTNodeType, AST};
use crate::token::TokenType;

verus! {

/// An expression: what a node and the nodes below it spell, without positions.
pub enum Term {
    Id(TokenType, Seq<char>),
    Lit(TokenType, Seq<char>),
    /// A function applied to an argument; whether it was written with `$`.
    App(Box<Term>, Box<Term>, bool),
    Pair(Box<Term>, Box<Term>),
    /// The variable (or pattern) and the body; whether it waits for its arguments to be
    /// values, and whether it was written with its variables before `=`.
    Abs(Box<Term>, Box<Term>, bool, bool),
    /// The expression matched, then each case's pattern and expression.
    Match(Seq<Term>),
    /// An assignment or a module, which are not expressions.
    Other,
}

/// The expression node `e` of `ast` stands for.
pub open spec fn term(ast: &AST, e: int) -> Term
    decreases ast.measure(e), ast.vec@[e].children@.len() + 1,
{
    if !(ast.wf() && ast.valid(e)) {
        Term::Other
    } else {
        proof { ast.lemma_node(e); }
        let n = ast.vec@[e];
        match n.t {
            ASTNodeType::Identifier => Term::Id(n.info->0.tt, n.info->0.value@),
            ASTNodeType::Literal => Term::Lit(n.info->0.tt, n.info->0.value@),
            ASTNodeType::Application => Term::App(
                Box::new(term(ast, ast.child(e, 0) as int)),
                Box::new(term(ast, ast.child(e, 1) as int)),
                n.dollar_app,
            ),
            ASTNodeType::Pair => Term::Pair(
                Box::new(term(ast, ast.child(e, 0) as int)),
                Box::new(term(ast, ast.child(e, 1) as int)),
            ),
            ASTNodeType::Abstraction => Term::Abs(
                Box::new(term(ast, ast.child(e, 0) as int)),
                Box::new(term(ast, ast.child(e, 1) as int)),
                n.wait_for_args,
                n.fancy_assign_abst_syntax,
            ),
            ASTNodeType::Match => Term::Match(terms_of(ast, e, n.children@.len())),
            _ => Term::Other,
        }
    }
}

/// The expressions of the first `k` children of node `e`.
pub open spec fn terms_of(ast: &AST, e: int, k: nat) -> Seq<Term>
    decreases ast.measure(e), k,
{
    if !(ast.wf() && ast.valid(e)) || k == 0 || k > ast.vec@[e].children@.len() {
        Seq::empty()
    } else {
        proof { ast.lemma_node(e); }
        terms_of(ast, e, (k - 1) as nat).push(term(ast, ast.child(e, k - 1) as int))
    }
}

pub proof fn lemma_terms_of(ast: &AST, e: int, k: nat)
    requires
        ast.wf(),
        ast.valid(e),
        k <= ast.vec@[e].children@.len(),
    ensures
        terms_of(ast, e, k).len() == k,
        forall|j: int| 0 <= j < k ==> #[trigger] terms_of(ast, e, k)[j] == term(ast, ast.child(e, j) as int),
    decreases k,
{
    if k > 0 {
        lemma_terms_of(ast, e, (k - 1) as nat);
    }
}

/// A tree that keeps the nodes of another keeps what they stand for.
pub proof fn lemma_term_kept(a: &AST, b: &AST, e: int)
    requires
        a.wf(),
        b.wf(),
        a.valid(e),
        a.vec@.len() <= b.vec@.len(),
        forall|i: int| 0 <= i < a.vec@.len() ==> #[trigger] b.vec@[i] == a.vec@[i],
        forall|i: int| 0 <= i < a.vec@.len() ==> #[trigger] b.rank@[i] == a.rank@[i],
    ensures
        term(b, e) == term(a, e),
    decreases a.measure(e),
{
    a.lemma_node(e);
    b.lemma_node(e);
    let n = a.vec@[e];
    assert(b.vec@[e] == n);
    if n.t != ASTNodeType::Module {
        assert forall|j: int| 0 <= j < n.children@.len() implies term(b, #[trigger] n.children@[j] as int) == term(a, n.children@[j] as int) by {
            lemma_term_kept(a, b, n.children@[j] as int);
        }
    }
    match n.t {
        ASTNodeType::Application | ASTNodeType::Pair | ASTNodeType::Abstraction => {
            assert(term(b, b.child(e, 0) as int) == term(a, a.child(e, 0) as int));
            assert(term(b, b.child(e, 1) as int) == term(a, a.child(e, 1) as int));
        },
        ASTNodeType::Match => {
            lemma_terms_of(a, e, n.children@.len());
            lemma_terms_of(b, e, n.children@.len());
            assert(terms_of(b, e, n.children@.len()) =~= terms_of(a, e, n.children@.len()));
        },
        _ => {},
    }
}

/// The expressions of the nodes `ns`.
pub open spec fn node_terms(ast: &AST, ns: Seq<usize>) -> Seq<Term> {
    Seq::new(ns.len(), |k: int| term(ast, ns[k] as int))
}

/// A tree that keeps the shape of another keeps what its nodes `ns` stand for.
pub proof fn lemma_terms_shape(a: &AST, b: &AST, ns: Seq<usize>)
    requires
        a.wf(),
        b.wf(),
        shape_kept(a, b),
        forall|k: int| 0 <= k < ns.len() ==> (#[trigger] ns[k] as int) < a.vec@.len(),
    ensures
        node_terms(b, ns) == node_terms(a, ns),
{
    assert forall|k: int| 0 <= k < ns.len() implies #[trigger] term(b, ns[k] as int) == term(a, ns[k] as int) by {
        lemma_term_shape(a, b, ns[k] as int);
    }
    assert(node_terms(b, ns) =~= node_terms(a, ns));
}

/// A tree that differs from another only at a module node keeps what the other nodes
/// stand for: no expression reaches a module.
pub proof fn lemma_term_module(a: &AST, b: &AST, m: int, e: int)
    requires
        a.wf(),
        b.wf(),
        a.valid(e),
        e != m,
        0 <= m < a.vec@.len(),
        a.vec@[m].t == ASTNodeType::Module,
        a.vec@.len() == b.vec@.len(),
        forall|i: int| 0 <= i < a.vec@.len() && i != m ==> #[trigger] b.vec@[i] == a.vec@[i],
        forall|i: int| 0 <= i < a.vec@.len() ==> #[trigger] b.rank@[i] == a.rank@[i],
    ensures
        term(b, e) == term(a, e),
    decreases a.measure(e),
{
    a.lemma_node(e);
    b.lemma_node(e);
    let n = a.vec@[e];
    assert(b.vec@[e] == n);
    if n.t != ASTNodeType::Module {
        assert forall|j: int| 0 <= j < n.children@.len() implies term(b, #[trigger] n.children@[j] as int) == term(a, n.children@[j] as int) by {
            lemma_term_module(a, b, m, n.children@[j] as int);
        }
    }
    match n.t {
        ASTNodeType::Application | ASTNodeType::Pair | ASTNodeType::Abstraction => {
            assert(term(b, b.child(e, 0) as int) == term(a, a.child(e, 0) as int));
            assert(term(b, b.child(e, 1) as int) == term(a, a.child(e, 1) as int));
        },
        ASTNodeType::Match => {
            lemma_terms_of(a, e, n.children@.len());
            lemma_terms_of(b, e, n.children@.len());
            assert(terms_of(b, e, n.children@.len()) =~= terms_of(a, e, n.children@.len()));
        },
        _ => {},
    }
}

/// `b` is a variable named `name`.
pub open spec fn binds_name(b: Term, name: Seq<char>) -> bool {
    b matches Term::Id(_, v) && v == name
}

/// `name` occurs free in `t`: as an identifier, outside abstractions over a variable of
/// that name, and outside the expressions of match cases whose pattern holds it.
/// Patterns themselves are not searched.
pub open spec fn has_free(t: Term, name: Seq<char>) -> bool
    decreases t, 0nat,
{
    match t {
        Term::Id(_, v) => v == name,
        Term::App(f, x, _) => has_free(*f, name) || has_free(*x, name),
        Term::Pair(a, b) => has_free(*a, name) || has_free(*b, name),
        Term::Abs(b, body, _, _) => !binds_name(*b, name) && has_free(*body, name),
        Term::Match(cs) => cases_have_free(cs, name, cs.len()),
        _ => false,
    }
}

/// `name` occurs free in the first `k` parts of a match (see `has_free`).
pub open spec fn cases_have_free(cs: Seq<Term>, name: Seq<char>, k: nat) -> bool
    decreases cs, k,
{
    if k == 0 || k > cs.len() {
        false
    } else {
        let i = k - 1;
        let here = if i == 0 {
            has_free(cs[0], name)
        } else if i % 2 == 1 {
            false
        } else {
            !has_free(cs[i - 1], name) && has_free(cs[i], name)
        };
        here || cases_have_free(cs, name, (k - 1) as nat)
    }
}

/// The bindings of `s` for names that do not occur free in the pattern `p`.
pub open spec fn outside_pattern(m: Map<Seq<char>, Term>, p: Term) -> Map<Seq<char>, Term> {
    Map::new(|k: Seq<char>| m.contains_key(k) && !has_free(p, k), |k: Seq<char>| m[k])
}

/// The bindings of `m` that stay visible under the variable `b` of an abstraction.
pub open spec fn under_binder(m: Map<Seq<char>, Term>, b: Term) -> Map<Seq<char>, Term> {
    match b {
        Term::Id(_, v) => m.remove(v),
        _ => m,
    }
}

/// `t` with each free identifier that `m` binds replaced by its binding.
pub open spec fn subst(t: Term, m: Map<Seq<char>, Term>) -> Term
    decreases t, 0nat,
{
    match t {
        Term::Id(_, v) => if m.contains_key(v) { m[v] } else { t },
        Term::App(f, x, d) => Term::App(Box::new(subst(*f, m)), Box::new(subst(*x, m)), d),
        Term::Pair(a, b) => Term::Pair(Box::new(subst(*a, m)), Box::new(subst(*b, m))),
        Term::Abs(b, body, w, fy) => Term::Abs(b, Box::new(subst(*body, under_binder(m, *b))), w, fy),
        Term::Match(cs) => Term::Match(subst_cases(cs, m, cs.len())),
        _ => t,
    }
}

/// The first `k` parts of a match after `subst`: the expression matched and each case's
/// expression are substituted (a case's expression without the names its pattern holds);
/// patterns are kept.
pub open spec fn subst_cases(cs: Seq<Term>, m: Map<Seq<char>, Term>, k: nat) -> Seq<Term>
    decreases cs, k,
{
    if k == 0 || k > cs.len() {
        Seq::empty()
    } else {
        let i = k - 1;
        let here = if i == 0 {
            subst(cs[0], m)
        } else if i % 2 == 1 {
            cs[i]
        } else {
            subst(cs[i], outside_pattern(m, cs[i - 1]))
        };
        subst_cases(cs, m, (k - 1) as nat).push(here)
    }
}

pub proof fn lemma_subst_cases(cs: Seq<Term>, m: Map<Seq<char>, Term>, k: nat)
    requires
        k <= cs.len(),
    ensures
        subst_cases(cs, m, k).len() == k,
        forall|i: int| 0 <= i < k ==> #[trigger] subst_cases(cs, m, k)[i] == if i == 0 {
            subst(cs[0], m)
        } else if i % 2 == 1 {
            cs[i]
        } else {
            subst(cs[i], outside_pattern(m, cs[i - 1]))
        },
    decreases k,
{
    if k > 0 {
        lemma_subst_cases(cs, m, (k - 1) as nat);
    }
}

/// The map of a list of bindings; an earlier binding of a name wins.
pub open spec fn first_wins(s: Seq<(Seq<char>, Term)>) -> Map<Seq<char>, Term>
    decreases s.len(),
{
    if s.len() == 0 {
        Map::empty()
    } else {
        let m = first_wins(s.drop_last());
        if m.contains_key(s.last().0) {
            m
        } else {
            m.insert(s.last().0, s.last().1)
        }
    }
}

/// What each name of the variable (or pattern of pairs) `v` receives from `s`: pairs
/// are taken apart side by side; where `s` is not a pair, the names inside a pair get
/// nothing.
pub open spec fn pattern_binds(v: Term, s: Term) -> Seq<(Seq<char>, Term)>
    decreases v,
{
    match v {
        Term::Id(_, n) => seq![(n, s)],
        Term::Pair(v1, v2) => match s {
            Term::Pair(s1, s2) => pattern_binds(*v1, *s1) + pattern_binds(*v2, *s2),
            _ => Seq::empty(),
        },
        _ => Seq::empty(),
    }
}

/// An abstraction applied to `s`: its body with its variable replaced by `s`.
pub open spec fn beta(abs: Term, s: Term) -> Term {
    match abs {
        Term::Abs(v, body, _, _) => subst(*body, first_wins(pattern_binds(*v, s))),
        _ => abs,
    }
}

/// `t` applied to the arguments `args`, the last one first, as long as what is applied
/// is an abstraction.
pub open spec fn apply_args(t: Term, args: Seq<Term>) -> Term
    decreases args.len(),
{
    if args.len() == 0 {
        t
    } else if t is Abs {
        apply_args(beta(t, args.last()), args.drop_last())
    } else {
        t
    }
}

/// `t` after replacing, one after the other, each name of `binds` by what it is bound to
/// (a later replacement also reaches into the earlier ones).
pub open spec fn subst_each(t: Term, binds: Seq<(Seq<char>, Term)>) -> Term
    decreases binds.len(),
{
    if binds.len() == 0 {
        t
    } else {
        subst(subst_each(t, binds.drop_last()), map![binds.last().0 => binds.last().1])
    }
}

/// The names and expressions of a list of bindings of names to nodes of `ast`.
pub open spec fn bindings_view(ast: &AST, s: Seq<(String, usize)>) -> Seq<(Seq<char>, Term)> {
    Seq::new(s.len(), |i: int| (s[i].0@, term(ast, s[i].1 as int)))
}

pub proof fn lemma_first_wins_push(s: Seq<(Seq<char>, Term)>, x: (Seq<char>, Term))
    ensures
        first_wins(s.push(x)) == if first_wins(s).contains_key(x.0) {
            first_wins(s)
        } else {
            first_wins(s).insert(x.0, x.1)
        },
{
    assert(s.push(x).drop_last() =~= s);
}

pub proof fn lemma_first_wins_none(s: Seq<(Seq<char>, Term)>, n: Seq<char>)
    requires
        forall|i: int| 0 <= i < s.len() ==> s[i].0 != n,
    ensures
        !first_wins(s).contains_key(n),
    decreases s.len(),
{
    if s.len() > 0 {
        lemma_first_wins_none(s.drop_last(), n);
    }
}

pub proof fn lemma_first_wins_first(s: Seq<(Seq<char>, Term)>, j: int)
    requires
        0 <= j < s.len(),
        forall|i: int| 0 <= i < j ==> s[i].0 != s[j].0,
    ensures
        first_wins(s).contains_key(s[j].0),
        first_wins(s)[s[j].0] == s[j].1,
    decreases s.len(),
{
    let d = s.drop_last();
    if j == s.len() - 1 {
        lemma_first_wins_none(d, s[j].0);
    } else {
        assert(d[j] == s[j]);
        lemma_first_wins_first(d, j);
    }
}

/// The bindings of `m` whose names satisfy `keep`.
pub open spec fn restrict(m: Map<Seq<char>, Term>, keep: spec_fn(Seq<char>) -> bool) -> Map<Seq<char>, Term> {
    Map::new(|n: Seq<char>| m.contains_key(n) && keep(n), |n: Seq<char>| m[n])
}

/// The names of `m` with the expressions of the nodes they are bound to.
pub open spec fn named_terms(ast: &AST, m: Seq<(Seq<char>, usize)>) -> Seq<(Seq<char>, Term)> {
    Seq::new(m.len(), |i: int| (m[i].0, term(ast, m[i].1 as int)))
}

/// No name that `m` binds occurs free in `t`: substituting changes nothing.
pub proof fn lemma_subst_not_free(t: Term, m: Map<Seq<char>, Term>)
    requires
        forall|k: Seq<char>| m.contains_key(k) ==> !has_free(t, k),
    ensures
        subst(t, m) == t,
    decreases t, 0nat,
{
    match t {
        Term::App(f, x, d) => {
            assert forall|k: Seq<char>| m.contains_key(k) implies !has_free(*f, k) && !has_free(*x, k) by {
                assert(!has_free(t, k));
            }
            lemma_subst_not_free(*f, m);
            lemma_subst_not_free(*x, m);
            assert(subst(t, m) == Term::App(Box::new(subst(*f, m)), Box::new(subst(*x, m)), d));
            assert(subst(*f, m) == *f);
            assert(subst(*x, m) == *x);
            assert(Term::App(Box::new(*f), Box::new(*x), d) == t);
            assert(subst(t, m) == t);
        },
        Term::Pair(a, b) => {
            assert forall|k: Seq<char>| m.contains_key(k) implies !has_free(*a, k) && !has_free(*b, k) by {
                assert(!has_free(t, k));
            }
            lemma_subst_not_free(*a, m);
            lemma_subst_not_free(*b, m);
            assert(subst(t, m) == Term::Pair(Box::new(subst(*a, m)), Box::new(subst(*b, m))));
        },
        Term::Abs(b, body, w, fy) => {
            let m2 = under_binder(m, *b);
            assert forall|k: Seq<char>| m2.contains_key(k) implies !has_free(*body, k) by {
                assert(m.contains_key(k));
                assert(!has_free(t, k));
                assert(!binds_name(*b, k));
            }
            lemma_subst_not_free(*body, m2);
            assert(subst(t, m) == t);
        },
        Term::Match(cs) => {
            assert forall|k: Seq<char>| m.contains_key(k) implies !cases_have_free(cs, k, cs.len()) by {
                assert(!has_free(t, k));
            }
            lemma_subst_cases_not_free(cs, m, cs.len());
            assert(subst_cases(cs, m, cs.len()) =~= cs);
            assert(subst(t, m) == t);
        },
        Term::Id(_, v) => {
            if m.contains_key(v) {
                assert(!has_free(t, v));
            }
        },
        _ => {
            assert(subst(t, m) == t);
        },
    }
}

pub proof fn lemma_subst_cases_not_free(cs: Seq<Term>, m: Map<Seq<char>, Term>, k: nat)
    requires
        k <= cs.len(),
        forall|n: Seq<char>| m.contains_key(n) ==> !cases_have_free(cs, n, k),
    ensures
        subst_cases(cs, m, k) =~= cs.take(k as int),
    decreases cs, k,
{
    if k > 0 {
        let i = k - 1;
        assert forall|n: Seq<char>| m.contains_key(n) implies !cases_have_free(cs, n, (k - 1) as nat) by {}
        lemma_subst_cases_not_free(cs, m, (k - 1) as nat);
        if i == 0 {
            lemma_subst_not_free(cs[0], m);
        } else if i % 2 == 0 {
            let m2 = outside_pattern(m, cs[i - 1]);
            assert forall|n: Seq<char>| m2.contains_key(n) implies !has_free(cs[i as int], n) by {
                assert(m.contains_key(n));
                assert(!cases_have_free(cs, n, k));
            }
            lemma_subst_not_free(cs[i as int], m2);
        }
        assert(cs.take(k as int) =~= cs.take(i as int).push(cs[i as int]));
    }
}

/// `b` keeps the nodes of `a` as far as what they stand for goes: kind, token, children,
/// flags and rank.
pub open spec fn shape_kept(a: &AST, b: &AST) -> bool {
    &&& a.vec@.len() <= b.vec@.len()
    &&& forall|i: int| 0 <= i < a.vec@.len() ==> same_shape(a.vec@[i], #[trigger] b.vec@[i])
    &&& forall|i: int| 0 <= i < a.vec@.len() ==> #[trigger] b.rank@[i] == a.rank@[i]
}

/// Two nodes that stand for the same expression when their children do.
pub open spec fn same_shape(n: ASTNode, m: ASTNode) -> bool {
    &&& m.t == n.t
    &&& m.info == n.info
    &&& m.children == n.children
    &&& m.dollar_app == n.dollar_app
    &&& m.wait_for_args == n.wait_for_args
    &&& m.fancy_assign_abst_syntax == n.fancy_assign_abst_syntax
    &&& m.is_silent == n.is_silent
    &&& n.t == ASTNodeType::Assignment ==> m.type_assignment == n.type_assignment
}

pub proof fn lemma_shape_kept_trans(a: &AST, b: &AST, c: &AST)
    requires
        shape_kept(a, b),
        shape_kept(b, c),
    ensures
        shape_kept(a, c),
{
    assert forall|i: int| 0 <= i < a.vec@.len() implies same_shape(a.vec@[i], #[trigger] c.vec@[i]) by {
        assert(same_shape(a.vec@[i], b.vec@[i]));
        assert(same_shape(b.vec@[i], c.vec@[i]));
    }
    assert forall|i: int| 0 <= i < a.vec@.len() implies #[trigger] c.rank@[i] == a.rank@[i] by {
        assert(b.rank@[i] == a.rank@[i]);
        assert(c.rank@[i] == b.rank@[i]);
    }
}

pub proof fn lemma_shape_kept_refl(a: &AST)
    ensures
        shape_kept(a, a),
{
}

/// A tree that keeps the shape of the nodes of another keeps what they stand for.
pub proof fn lemma_term_shape(a: &AST, b: &AST, e: int)
    requires
        a.wf(),
        b.wf(),
        a.valid(e),
        shape_kept(a, b),
    ensures
        term(b, e) == term(a, e),
    decreases a.measure(e),
{
    a.lemma_node(e);
    b.lemma_node(e);
    let n = a.vec@[e];
    assert(same_shape(n, b.vec@[e]));
    if n.t != ASTNodeType::Module {
        assert forall|j: int| 0 <= j < n.children@.len() implies term(b, #[trigger] n.children@[j] as int) == term(a, n.children@[j] as int) by {
            lemma_term_shape(a, b, n.children@[j] as int);
        }
    }
    match n.t {
        ASTNodeType::Application | ASTNodeType::Pair | ASTNodeType::Abstraction => {
            assert(term(b, b.child(e, 0) as int) == term(a, a.child(e, 0) as int));
            assert(term(b, b.child(e, 1) as int) == term(a, a.child(e, 1) as int));
        },
        ASTNodeType::Match => {
            lemma_terms_of(a, e, n.children@.len());
            lemma_terms_of(b, e, n.children@.len());
            assert(terms_of(b, e, n.children@.len()) =~= terms_of(a, e, n.children@.len()));
        },
        _ => {},
    }
}

} // verus!
