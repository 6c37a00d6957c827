//! Copying subtrees between trees and redirecting references: the steps of substitution.
use vstd::prelude::*;

use crate::ast::{is_expr_kind, ASTNode, ASTNodeType, RCPair, AST};
use crate::text::str_eq;
use crate::term::{
    Term,
    bindings_view, cases_have_free, first_wins, has_free, lemma_first_wins_first, lemma_first_wins_none,
    lemma_first_wins_push, lemma_subst_cases, lemma_term_kept, lemma_terms_of, outside_pattern, restrict, subst,
    subst_cases, term, terms_of, pattern_binds, beta, apply_args,
};
use crate::token::Token;

verus! {

/// Nodes from `mark` on only have children from `mark` on.
pub open spec fn closed_from(ast: &AST, mark: nat) -> bool {
    forall|i: int, j: int|
        mark <= i < ast.vec@.len() && 0 <= j < ast.vec@[i].children@.len() ==> #[trigger] ast.vec@[i].children@[j] >= mark
}

/// `b` extends `a`: the nodes of `a` are kept, with their ranks.
pub open spec fn extends(a: &AST, b: &AST) -> bool {
    &&& a.vec@.len() <= b.vec@.len()
    &&& forall|i: int| 0 <= i < a.vec@.len() ==> #[trigger] b.vec@[i] == a.vec@[i]
    &&& forall|i: int| 0 <= i < a.vec@.len() ==> #[trigger] b.rank@[i] == a.rank@[i]
    &&& b.root == a.root
}

pub proof fn lemma_extends_trans(a: &AST, b: &AST, c: &AST)
    requires
        extends(a, b),
        extends(b, c),
    ensures
        extends(a, c),
{
}

/// A copy made by `append`: same kind, position and flags; identifiers and literals with
/// the same text; assignments with the same type annotation.
pub open spec fn copied_node(n: ASTNode, m: ASTNode) -> bool {
    &&& n.t == m.t
    &&& n.line == m.line
    &&& n.col == m.col
    &&& (m.t == ASTNodeType::Identifier || m.t == ASTNodeType::Literal) ==> (n.info is Some
        && n.info->0.value@ == m.info->0.value@ && n.info->0.tt == m.info->0.tt)
    &&& n.children@.len() == m.children@.len()
    &&& m.t == ASTNodeType::Application ==> n.dollar_app == m.dollar_app
    &&& m.t == ASTNodeType::Abstraction ==> (n.fancy_assign_abst_syntax == m.fancy_assign_abst_syntax
        && n.wait_for_args == m.wait_for_args)
    &&& m.t == ASTNodeType::Assignment ==> (n.is_silent == m.is_silent
        && (n.type_assignment is Some <==> m.type_assignment is Some)
        && (n.type_assignment is Some ==> n.type_assignment->0@ == m.type_assignment->0@))
}

impl AST {
    /// Copies the subtree of `other` at `node` into this tree; returns the copy's index.
    /// Type annotations are kept on assignments only.
    pub fn append(&mut self, other: &AST, node: usize) -> (r: usize)
        requires
            old(self).wf(),
            other.wf(),
            node < other.vec@.len(),
        ensures
            final(self).wf(),
            extends(old(self), final(self)),
            old(self).vec@.len() <= r < final(self).vec@.len(),
            copied_node(final(self).vec@[r as int], other.vec@[node as int]),
            term(final(self), r as int) == term(other, node as int),
            forall|i: int, j: int|
                old(self).vec@.len() <= i < final(self).vec@.len() && 0 <= j < final(self).vec@[i].children@.len()
                ==> #[trigger] final(self).vec@[i].children@[j] >= old(self).vec@.len(),
        decreases other.measure(node as int),
    {
        proof { other.lemma_node(node as int); }
        let n = &other.vec[node];
        let line = n.line;
        let col = n.col;
        let ghost start = *self;
        let r = match n.t {
            ASTNodeType::Identifier => {
                let tk = n.info.as_ref().unwrap().copy();
                let r = self.add_id(tk, line, col);
                proof { self.lemma_node(r as int); }
                r
            },
            ASTNodeType::Literal => {
                let tk = n.info.as_ref().unwrap().copy();
                let r = self.add_lit(tk, line, col);
                proof { self.lemma_node(r as int); }
                r
            },
            ASTNodeType::Application | ASTNodeType::Pair | ASTNodeType::Abstraction
            | ASTNodeType::Assignment => {
                let c0 = n.children[0];
                let c1 = n.children[1];
                let a = self.append(other, c0);
                let ghost mid = *self;
                let b = self.append(other, c1);
                proof {
                    lemma_extends_trans(&start, &mid, self);
                    lemma_term_kept(&mid, self, a as int);
                }
                let ghost before = *self;
                let t = n.t;
                let r = if t == ASTNodeType::Application {
                    self.add_app(a, b, line, col, n.dollar_app)
                } else if t == ASTNodeType::Pair {
                    self.add_pair(a, b, line, col)
                } else if t == ASTNodeType::Abstraction {
                    let s = self.add_abstraction(a, b, line, col);
                    if n.fancy_assign_abst_syntax {
                        self.fancy_assign_abst_syntax(s);
                    }
                    if n.wait_for_args {
                        self.wait_for_args(s);
                    }
                    s
                } else {
                    let ty = match &n.type_assignment {
                        Some(t) => Some(t.deep_clone()),
                        None => None,
                    };
                    self.add_assignment(a, b, line, col, ty, n.is_silent)
                };
                proof {
                    lemma_term_kept(&before, self, a as int);
                    lemma_term_kept(&before, self, b as int);
                    self.lemma_node(r as int);
                }
                r
            },
            ASTNodeType::Match | ASTNodeType::Module => {
                let mut children: Vec<usize> = Vec::new();
                let mut k: usize = 0;
                proof {
                    assert(other.node_ok(node as int));
                    assert forall|j: int| 0 <= j < n.children@.len() implies other.child_ok(node as int, #[trigger] n.children@[j]) by {}
                }
                while k < n.children.len()
                    invariant
                        self.wf(),
                        other.wf(),
                        node < other.vec@.len(),
                        *n == other.vec@[node as int],
                        extends(&start, self),
                        k <= n.children@.len(),
                        children@.len() == k,
                        forall|j: int| 0 <= j < k ==> start.vec@.len() <= #[trigger] children@[j] < self.vec@.len(),
                        forall|j: int| 0 <= j < k ==> self.vec@[children@[j] as int].t == other.vec@[n.children@[j] as int].t,
                        forall|j: int| 0 <= j < k ==> term(self, #[trigger] children@[j] as int) == term(other, n.children@[j] as int),
                        forall|i: int, j: int|
                            start.vec@.len() <= i < self.vec@.len() && 0 <= j < self.vec@[i].children@.len()
                            ==> #[trigger] self.vec@[i].children@[j] >= start.vec@.len(),
                        forall|j: int| 0 <= j < n.children@.len() ==> {
                            let c = #[trigger] n.children@[j] as int;
                            &&& 0 <= c < other.vec@.len()
                            &&& other.measure(c) < other.measure(node as int)
                            &&& other.vec@[c].t != ASTNodeType::Module
                        },
                        n.t == ASTNodeType::Module ==> forall|j: int| 0 <= j < n.children@.len() ==> other.vec@[#[trigger] n.children@[j] as int].t == ASTNodeType::Assignment,
                    decreases n.children@.len() - k,
                {
                    let ghost before = *self;
                    let c = self.append(other, n.children[k]);
                    proof {
                        lemma_extends_trans(&start, &before, self);
                        assert forall|j: int| 0 <= j < k implies term(self, #[trigger] children@[j] as int) == term(other, n.children@[j] as int) by {
                            lemma_term_kept(&before, self, children@[j] as int);
                        }
                    }
                    children.push(c);
                    k = k + 1;
                }
                proof {
                    other.lemma_node(node as int);
                    assert(other.node_ok(node as int));
                }
                let ghost before = *self;
                let r = if n.t == ASTNodeType::Match {
                    self.add_match(children, line, col)
                } else {
                    self.add_module(children, line, col)
                };
                proof {
                    self.lemma_node(r as int);
                    if n.t == ASTNodeType::Match {
                        assert forall|j: int| 0 <= j < children@.len() implies term(self, #[trigger] children@[j] as int) == term(other, n.children@[j] as int) by {
                            lemma_term_kept(&before, self, children@[j] as int);
                        }
                        lemma_terms_of(self, r as int, children@.len());
                        lemma_terms_of(other, node as int, children@.len());
                        assert(terms_of(self, r as int, children@.len()) =~= terms_of(other, node as int, children@.len()));
                    }
                }
                r
            },
        };
        r
    }

    /// Copies the root subtree of `other` into this tree.
    pub fn append_root(&mut self, other: &AST) -> (r: usize)
        requires
            old(self).wf(),
            other.wf(),
            other.root < other.vec@.len(),
        ensures
            final(self).wf(),
            extends(old(self), final(self)),
            old(self).vec@.len() <= r < final(self).vec@.len(),
            copied_node(final(self).vec@[r as int], other.vec@[other.root as int]),
            term(final(self), r as int) == term(other, other.root as int),
    {
        self.append(other, other.root)
    }

    /// A tree holding a copy of the subtree at `n`, rooted at index 0. The root keeps its
    /// own fields, type annotation included; below it, annotations stay on assignments.
    pub fn clone_node(&self, n: usize) -> (r: AST)
        requires
            self.wf(),
            n < self.vec@.len(),
        ensures
            r.wf(),
            r.root == 0,
            0 < r.vec@.len(),
            copied_node(r.vec@[0], self.vec@[n as int]),
            same_fields(r.vec@[0], self.vec@[n as int]),
            term(&r, 0) == term(self, n as int),
    {
        proof { self.lemma_node(n as int); }
        let node = &self.vec[n];
        // Index 0 is held for the root by an empty module until its children are copied.
        let mut ast = AST::new();
        ast.add(ASTNode {
            t: ASTNodeType::Module,
            info: None,
            children: Vec::new(),
            line: node.line,
            col: node.col,
            type_assignment: None,
            wait_for_args: false,
            fancy_assign_abst_syntax: false,
            dollar_app: false,
            is_silent: false,
        });
        let mut children: Vec<usize> = Vec::new();
        let mut k: usize = 0;
        while k < node.children.len()
            invariant
                ast.wf(),
                self.wf(),
                n < self.vec@.len(),
                *node == self.vec@[n as int],
                self.node_ok(n as int),
                1 <= ast.vec@.len(),
                ast.root == 0,
                closed_from(&ast, 1),
                k <= node.children@.len(),
                children@.len() == k,
                forall|j: int| 0 <= j < k ==> 1 <= #[trigger] children@[j] < ast.vec@.len(),
                forall|j: int| 0 <= j < k ==> ast.vec@[#[trigger] children@[j] as int].t == self.vec@[node.children@[j] as int].t,
                forall|j: int| 0 <= j < k ==> term(&ast, #[trigger] children@[j] as int) == term(self, node.children@[j] as int),
            decreases node.children@.len() - k,
        {
            proof { assert(self.child_ok(n as int, node.children@[k as int])); }
            let ghost before = ast;
            let c = ast.append(self, node.children[k]);
            proof {
                assert forall|j: int| 0 <= j < k implies term(&ast, #[trigger] children@[j] as int) == term(self, node.children@[j] as int) by {
                    lemma_term_kept(&before, &ast, children@[j] as int);
                }
                assert forall|i: int, j: int| 1 <= i < ast.vec@.len() && 0 <= j < ast.vec@[i].children@.len()
                    implies #[trigger] ast.vec@[i].children@[j] >= 1 by {
                    if i < before.vec@.len() {
                        assert(ast.vec@[i] == before.vec@[i]);
                    }
                }
            }
            children.push(c);
            k = k + 1;
        }
        let info = match &node.info {
            Some(tk) => Some(tk.copy()),
            None => None,
        };
        let ty = match &node.type_assignment {
            Some(t) => Some(t.deep_clone()),
            None => None,
        };
        let top = ASTNode {
            t: node.t,
            info,
            children,
            line: node.line,
            col: node.col,
            type_assignment: ty,
            wait_for_args: node.wait_for_args,
            fancy_assign_abst_syntax: node.fancy_assign_abst_syntax,
            dollar_app: node.dollar_app,
            is_silent: node.is_silent,
        };
        let ghost before = ast;
        ast.vec.set(0, top);
        ast.rank = Ghost(ast.rank@.update(0, ast.bound@));
        ast.bound = Ghost(ast.bound@ + 1);
        proof {
            lemma_replace_root(&before, &ast, self, n as int);
        }
        ast
    }
}

/// Two nodes with the same position, flags and type annotation.
pub open spec fn same_fields(a: ASTNode, b: ASTNode) -> bool {
    &&& a.line == b.line
    &&& a.col == b.col
    &&& a.wait_for_args == b.wait_for_args
    &&& a.fancy_assign_abst_syntax == b.fancy_assign_abst_syntax
    &&& a.dollar_app == b.dollar_app
    &&& a.is_silent == b.is_silent
    &&& (a.type_assignment is Some <==> b.type_assignment is Some)
    &&& a.type_assignment is Some ==> a.type_assignment->0@ == b.type_assignment->0@
}

/// A node that no other node refers to can be replaced by a copy of node `n` of `src`
/// whose children are copies of the children of `n`: the tree stays well-formed and the
/// replacement stands for what `n` stands for.
proof fn lemma_replace_root(a: &AST, b: &AST, src: &AST, n: int)
    requires
        a.wf(),
        src.wf(),
        src.valid(n),
        1 <= a.vec@.len(),
        closed_from(a, 1),
        b.vec@.len() == a.vec@.len(),
        forall|i: int| 1 <= i < a.vec@.len() ==> #[trigger] b.vec@[i] == a.vec@[i],
        b.rank@ == a.rank@.update(0, a.bound@),
        b.bound@ == a.bound@ + 1,
        b.vec@[0].t == src.vec@[n].t,
        b.vec@[0].info is Some <==> src.vec@[n].info is Some,
        b.vec@[0].info is Some ==> b.vec@[0].info->0.tt == src.vec@[n].info->0.tt
            && b.vec@[0].info->0.value@ == src.vec@[n].info->0.value@,
        b.vec@[0].children@.len() == src.vec@[n].children@.len(),
        b.vec@[0].wait_for_args == src.vec@[n].wait_for_args,
        b.vec@[0].fancy_assign_abst_syntax == src.vec@[n].fancy_assign_abst_syntax,
        b.vec@[0].dollar_app == src.vec@[n].dollar_app,
        forall|j: int| 0 <= j < b.vec@[0].children@.len() ==> 1 <= #[trigger] b.vec@[0].children@[j] < a.vec@.len(),
        forall|j: int| 0 <= j < b.vec@[0].children@.len() ==> a.vec@[#[trigger] b.vec@[0].children@[j] as int].t
            == src.vec@[src.vec@[n].children@[j] as int].t,
        forall|j: int| 0 <= j < b.vec@[0].children@.len() ==> term(a, #[trigger] b.vec@[0].children@[j] as int)
            == term(src, src.vec@[n].children@[j] as int),
    ensures
        b.wf(),
        closed_from(b, 1),
        term(b, 0) == term(src, n),
{
    src.lemma_node(n);
    let m = src.vec@[n];
    let top = b.vec@[0];
    assert forall|i: int| 0 <= i < b.vec@.len() implies #[trigger] b.node_ok(i) by {
        if i == 0 {
            assert forall|j: int| 0 <= j < top.children@.len() implies #[trigger] b.child_ok(0, top.children@[j]) by {
                let c = top.children@[j] as int;
                assert(src.child_ok(n, m.children@[j]));
                assert(a.node_ok(c));
                assert(b.vec@[c] == a.vec@[c]);
            }
            if top.t == ASTNodeType::Assignment {
                assert(src.child_ok(n, m.children@[0]));
                assert(b.vec@[top.children@[0] as int] == a.vec@[top.children@[0] as int]);
            }
        } else {
            assert(a.node_ok(i));
            assert forall|j: int| 0 <= j < b.vec@[i].children@.len() implies #[trigger] b.child_ok(i, b.vec@[i].children@[j]) by {
                let c = b.vec@[i].children@[j] as int;
                assert(a.child_ok(i, a.vec@[i].children@[j]));
                assert(b.vec@[c] == a.vec@[c]);
            }
            if b.vec@[i].t == ASTNodeType::Assignment {
                assert(a.child_ok(i, a.vec@[i].children@[0]));
                assert(b.vec@[a.vec@[i].children@[0] as int] == a.vec@[a.vec@[i].children@[0] as int]);
            }
        }
    }
    assert(b.wf());
    assert forall|j: int| 0 <= j < top.children@.len() implies term(b, #[trigger] top.children@[j] as int)
        == term(src, m.children@[j] as int) by {
        lemma_term_kept_from(a, b, top.children@[j] as int);
    }
    b.lemma_node(0);
    match top.t {
        ASTNodeType::Application | ASTNodeType::Pair | ASTNodeType::Abstraction => {
            assert(term(b, b.child(0, 0) as int) == term(src, src.child(n, 0) as int));
            assert(term(b, b.child(0, 1) as int) == term(src, src.child(n, 1) as int));
        },
        ASTNodeType::Match => {
            lemma_terms_of(b, 0, top.children@.len());
            lemma_terms_of(src, n, top.children@.len());
            assert(terms_of(b, 0, top.children@.len()) =~= terms_of(src, n, top.children@.len()));
        },
        _ => {},
    }
}

/// Replacing node 0, which no other node refers to, keeps what the other nodes stand for.
proof fn lemma_term_kept_from(a: &AST, b: &AST, e: int)
    requires
        a.wf(),
        b.wf(),
        1 <= e < a.vec@.len(),
        closed_from(a, 1),
        b.vec@.len() == a.vec@.len(),
        forall|i: int| 1 <= i < a.vec@.len() ==> #[trigger] b.vec@[i] == a.vec@[i],
        forall|i: int| 1 <= i < a.vec@.len() ==> #[trigger] b.rank@[i] == a.rank@[i],
    ensures
        term(b, e) == term(a, e),
    decreases a.measure(e),
{
    a.lemma_node(e);
    b.lemma_node(e);
    let n = a.vec@[e];
    assert(b.vec@[e] == n);
    if n.t != ASTNodeType::Module {
        assert forall|j: int| 0 <= j < n.children@.len() implies term(b, #[trigger] n.children@[j] as int) == term(a, n.children@[j] as int) by {
            assert(n.children@[j] >= 1);
            lemma_term_kept_from(a, b, n.children@[j] as int);
        }
    }
    match n.t {
        ASTNodeType::Application | ASTNodeType::Pair | ASTNodeType::Abstraction => {
            assert(term(b, b.child(e, 0) as int) == term(a, a.child(e, 0) as int));
            assert(term(b, b.child(e, 1) as int) == term(a, a.child(e, 1) as int));
        },
        ASTNodeType::Match => {
            lemma_terms_of(a, e, n.children@.len());
            lemma_terms_of(b, e, n.children@.len());
            assert(terms_of(b, e, n.children@.len()) =~= terms_of(a, e, n.children@.len()));
        },
        _ => {},
    }
}

/// The children of node `i` after every `old` among them (except the name of an
/// assignment) becomes `new`.
pub open spec fn redirected(n: ASTNode, m: ASTNode, old_node: usize, new_node: usize) -> bool {
    &&& m.t == n.t
    &&& m.info == n.info
    &&& m.dollar_app == n.dollar_app
    &&& m.wait_for_args == n.wait_for_args
    &&& m.fancy_assign_abst_syntax == n.fancy_assign_abst_syntax
    &&& m.children@.len() == n.children@.len()
    &&& forall|j: int| 0 <= j < n.children@.len() ==> #[trigger] m.children@[j] == (if n.children@[j] == old_node
        && !(n.t == ASTNodeType::Assignment && j == 0) {
        new_node
    } else {
        n.children@[j]
    })
}

/// Ranks after a redirect: nodes before `mark` move above every rank so far.
pub open spec fn shifted(rank: Seq<nat>, bound: nat, mark: nat) -> Seq<nat> {
    Seq::new(rank.len(), |i: int| if i < mark { rank[i] + bound } else { rank[i] })
}

pub proof fn lemma_redirect_wf(a: &AST, b: &AST, old_node: usize, new_node: usize, mark: nat)
    requires
        a.wf(),
        old_node < mark <= new_node < a.vec@.len(),
        closed_from(a, mark),
        is_expr_kind(a.vec@[old_node as int].t),
        is_expr_kind(a.vec@[new_node as int].t),
        b.vec@.len() == a.vec@.len(),
        forall|i: int| 0 <= i < a.vec@.len() ==> #[trigger] redirected(a.vec@[i], b.vec@[i], old_node, new_node),
        b.rank@ == shifted(a.rank@, a.bound@, mark),
        b.bound@ == 2 * a.bound@ + 1,
    ensures
        b.wf(),
        closed_from(b, mark),
{
    assert forall|i: int| 0 <= i < b.vec@.len() implies #[trigger] b.node_ok(i) by {
        assert(a.node_ok(i));
        assert(redirected(a.vec@[i], b.vec@[i], old_node, new_node));
        assert forall|j: int| 0 <= j < b.vec@[i].children@.len() implies #[trigger] b.child_ok(i, b.vec@[i].children@[j]) by {
            let c = a.vec@[i].children@[j];
            assert(a.child_ok(i, c));
            assert(redirected(a.vec@[c as int], b.vec@[c as int], old_node, new_node));
            assert(redirected(a.vec@[new_node as int], b.vec@[new_node as int], old_node, new_node));
            assert(a.node_ok(new_node as int));
            if i >= mark {
                assert(c >= mark);
            }
        }
        if b.vec@[i].t == ASTNodeType::Assignment {
            let c0 = a.vec@[i].children@[0];
            assert(a.child_ok(i, c0));
            assert(redirected(a.vec@[c0 as int], b.vec@[c0 as int], old_node, new_node));
        }
    }
    assert forall|i: int, j: int|
        mark <= i < b.vec@.len() && 0 <= j < b.vec@[i].children@.len() implies #[trigger] b.vec@[i].children@[j] >= mark by {
        assert(redirected(a.vec@[i], b.vec@[i], old_node, new_node));
        assert(a.vec@[i].children@[j] >= mark);
    }
}

impl AST {
    /// Makes every reference to node `old_node` point to `new_node` instead: the children of all
    /// nodes (but the names of assignments) and the root. `new_node` lies in the part of the
    /// tree from `mark` on, which only refers to itself; `old_node` lies before it.
    pub fn replace_references_to_node(&mut self, old_node: usize, new_node: usize, mark: usize)
        requires
            old(self).wf(),
            old_node < mark <= new_node < old(self).vec@.len(),
            closed_from(old(self), mark as nat),
            is_expr_kind(old(self).vec@[old_node as int].t),
            is_expr_kind(old(self).vec@[new_node as int].t),
        ensures
            final(self).wf(),
            closed_from(final(self), mark as nat),
            final(self).vec@.len() == old(self).vec@.len(),
            forall|i: int| 0 <= i < old(self).vec@.len() ==> #[trigger] redirected(old(self).vec@[i], final(self).vec@[i], old_node, new_node),
            final(self).root == (if old(self).root == old_node { new_node } else { old(self).root }),
    {
        let ghost a = *self;
        if self.root == old_node {
            self.root = new_node;
        }
        let n = self.vec.len();
        let mut i: usize = 0;
        while i < n
            invariant
                n == self.vec@.len(),
                n == a.vec@.len(),
                i <= n,
                forall|k: int| 0 <= k < i ==> #[trigger] redirected(a.vec@[k], self.vec@[k], old_node, new_node),
                forall|k: int| i <= k < n ==> #[trigger] self.vec@[k] == a.vec@[k],
                self.rank == a.rank,
                self.bound == a.bound,
                self.root == (if a.root == old_node { new_node } else { a.root }),
            decreases n - i,
        {
            let m = self.vec[i].children.len();
            let is_assign = self.vec[i].t == ASTNodeType::Assignment;
            let mut j: usize = 0;
            while j < m
                invariant
                    n == self.vec@.len(),
                    i < n,
                    j <= m,
                    m == a.vec@[i as int].children@.len(),
                    is_assign == (a.vec@[i as int].t == ASTNodeType::Assignment),
                    self.vec@[i as int].t == a.vec@[i as int].t,
                    self.vec@[i as int].info == a.vec@[i as int].info,
                    self.vec@[i as int].dollar_app == a.vec@[i as int].dollar_app,
                    self.vec@[i as int].wait_for_args == a.vec@[i as int].wait_for_args,
                    self.vec@[i as int].fancy_assign_abst_syntax == a.vec@[i as int].fancy_assign_abst_syntax,
                    self.vec@[i as int].children@.len() == m,
                    forall|x: int| 0 <= x < j ==> #[trigger] self.vec@[i as int].children@[x] == (if a.vec@[i as int].children@[x] == old_node
                        && !(is_assign && x == 0) { new_node } else { a.vec@[i as int].children@[x] }),
                    forall|x: int| j <= x < m ==> #[trigger] self.vec@[i as int].children@[x] == a.vec@[i as int].children@[x],
                    forall|k: int| 0 <= k < i ==> #[trigger] redirected(a.vec@[k], self.vec@[k], old_node, new_node),
                    forall|k: int| i < k < n ==> #[trigger] self.vec@[k] == a.vec@[k],
                    self.rank == a.rank,
                    self.bound == a.bound,
                    self.root == (if a.root == old_node { new_node } else { a.root }),
                decreases m - j,
            {
                if self.vec[i].children[j] == old_node && !(is_assign && j == 0) {
                    self.vec[i].children.set(j, new_node);
                }
                j = j + 1;
            }
            i = i + 1;
        }
        self.rank = Ghost(shifted(a.rank@, a.bound@, mark as nat));
        self.bound = Ghost(2 * a.bound@ + 1);
        proof {
            lemma_redirect_wf(&a, self, old_node, new_node, mark as nat);
        }
    }
}

/// The nodes inside `within` written like `old` (the node itself, or `same_expr`), not
/// looking inside those nor inside abstractions: the two sides of applications and pairs,
/// the expression a match inspects and its cases' expressions are searched, patterns are
/// not.
pub open spec fn hits(ast: &AST, within: int, old: int) -> Seq<usize>
    decreases ast.measure(within), ast.vec@[within].children@.len() + 1,
{
    if !(ast.wf() && ast.valid(within)) {
        Seq::empty()
    } else if within == old || ast.same_expr(within, old) {
        seq![within as usize]
    } else {
        proof { ast.lemma_node(within); }
        let t = ast.vec@[within].t;
        if t == ASTNodeType::Application || t == ASTNodeType::Pair {
            hits(ast, ast.child(within, 0) as int, old) + hits(ast, ast.child(within, 1) as int, old)
        } else if t == ASTNodeType::Match {
            hits(ast, ast.child(within, 0) as int, old) + case_hits(
                ast,
                within,
                old,
                ((ast.vec@[within].children@.len() - 1) / 2) as nat,
            )
        } else {
            Seq::empty()
        }
    }
}

/// `hits` in the expressions of the first `k` cases of the match `e`.
pub open spec fn case_hits(ast: &AST, e: int, old: int, k: nat) -> Seq<usize>
    decreases ast.measure(e), k,
{
    if !(ast.wf() && ast.valid(e)) || k == 0 || 2 * k + 1 > ast.vec@[e].children@.len() {
        Seq::empty()
    } else {
        proof { ast.lemma_node(e); }
        case_hits(ast, e, old, (k - 1) as nat) + hits(ast, ast.child(e, 2 * k as int) as int, old)
    }
}

/// Where `within` is not itself written like `old`, the hits lie strictly below it.
pub proof fn lemma_hits_below(ast: &AST, within: int, old: int)
    requires
        ast.wf(),
        ast.valid(within),
        !(within == old || ast.same_expr(within, old)),
    ensures
        forall|w: int| 0 <= w < hits(ast, within, old).len() ==> #[trigger] hits(ast, within, old)[w] as int != within,
{
    lemma_hits_measure(ast, within, old);
}

/// The hits are `within` itself, where it is written like `old`, or nodes of smaller
/// measure.
pub proof fn lemma_hits_measure(ast: &AST, within: int, old: int)
    requires
        ast.wf(),
        ast.valid(within),
    ensures
        forall|w: int| 0 <= w < hits(ast, within, old).len() ==> {
            let h = #[trigger] hits(ast, within, old)[w] as int;
            &&& ast.valid(h)
            &&& ((within == old || ast.same_expr(within, old)) || ast.measure(h) < ast.measure(within))
        },
    decreases ast.measure(within), ast.vec@[within].children@.len() + 1,
{
    ast.lemma_node(within);
    if !(within == old || ast.same_expr(within, old)) {
        let t = ast.vec@[within].t;
        if t == ASTNodeType::Application || t == ASTNodeType::Pair {
            let c0 = ast.child(within, 0) as int;
            let c1 = ast.child(within, 1) as int;
            lemma_hits_measure(ast, c0, old);
            lemma_hits_measure(ast, c1, old);
            let a = hits(ast, c0, old);
            let b = hits(ast, c1, old);
            assert(hits(ast, within, old) == a + b);
            assert forall|w: int| 0 <= w < (a + b).len() implies {
                let h = #[trigger] (a + b)[w] as int;
                &&& ast.valid(h)
                &&& ast.measure(h) < ast.measure(within)
            } by {
                if w < a.len() {
                    assert((a + b)[w] == a[w]);
                } else {
                    assert((a + b)[w] == b[w - a.len()]);
                }
            }
        } else if t == ASTNodeType::Match {
            let c0 = ast.child(within, 0) as int;
            lemma_hits_measure(ast, c0, old);
            let k = ((ast.vec@[within].children@.len() - 1) / 2) as nat;
            lemma_case_hits_measure(ast, within, old, k);
            let a = hits(ast, c0, old);
            let b = case_hits(ast, within, old, k);
            assert(hits(ast, within, old) == a + b);
            assert forall|w: int| 0 <= w < (a + b).len() implies {
                let h = #[trigger] (a + b)[w] as int;
                &&& ast.valid(h)
                &&& ast.measure(h) < ast.measure(within)
            } by {
                if w < a.len() {
                    assert((a + b)[w] == a[w]);
                } else {
                    assert((a + b)[w] == b[w - a.len()]);
                }
            }
        }
    }
}

pub proof fn lemma_case_hits_measure(ast: &AST, e: int, old: int, k: nat)
    requires
        ast.wf(),
        ast.valid(e),
    ensures
        forall|w: int| 0 <= w < case_hits(ast, e, old, k).len() ==> {
            let h = #[trigger] case_hits(ast, e, old, k)[w] as int;
            &&& ast.valid(h)
            &&& ast.measure(h) < ast.measure(e)
        },
    decreases ast.measure(e), k,
{
    if k > 0 && 2 * k + 1 <= ast.vec@[e].children@.len() {
        ast.lemma_node(e);
        lemma_case_hits_measure(ast, e, old, (k - 1) as nat);
        let c = ast.child(e, 2 * k as int) as int;
        lemma_hits_measure(ast, c, old);
        let a = case_hits(ast, e, old, (k - 1) as nat);
        let b = hits(ast, c, old);
        assert(case_hits(ast, e, old, k) == a + b);
        assert forall|w: int| 0 <= w < (a + b).len() implies {
            let h = #[trigger] (a + b)[w] as int;
            &&& ast.valid(h)
            &&& ast.measure(h) < ast.measure(e)
        } by {
            if w < a.len() {
                assert((a + b)[w] == a[w]);
            } else {
                assert((a + b)[w] == b[w - a.len()]);
            }
        }
    }
}

/// What node `e` stands for once every child reference to a node of `hs` is made to refer
/// to an expression `t` instead.
pub open spec fn term_redirected(ast: &AST, e: int, hs: Set<usize>, t: Term) -> Term
    decreases ast.measure(e), ast.vec@[e].children@.len() + 1,
{
    if !(ast.wf() && ast.valid(e)) {
        Term::Other
    } else {
        proof { ast.lemma_node(e); }
        let n = ast.vec@[e];
        match n.t {
            ASTNodeType::Identifier => Term::Id(n.info->0.tt, n.info->0.value@),
            ASTNodeType::Literal => Term::Lit(n.info->0.tt, n.info->0.value@),
            ASTNodeType::Application => Term::App(
                Box::new(child_redirected(ast, e, 0, hs, t)),
                Box::new(child_redirected(ast, e, 1, hs, t)),
                n.dollar_app,
            ),
            ASTNodeType::Pair => Term::Pair(
                Box::new(child_redirected(ast, e, 0, hs, t)),
                Box::new(child_redirected(ast, e, 1, hs, t)),
            ),
            ASTNodeType::Abstraction => Term::Abs(
                Box::new(child_redirected(ast, e, 0, hs, t)),
                Box::new(child_redirected(ast, e, 1, hs, t)),
                n.wait_for_args,
                n.fancy_assign_abst_syntax,
            ),
            ASTNodeType::Match => Term::Match(redirected_children(ast, e, hs, t, n.children@.len())),
            _ => Term::Other,
        }
    }
}

/// The `j`-th child of `e` under `term_redirected`: `t` where it is in `hs`.
pub open spec fn child_redirected(ast: &AST, e: int, j: nat, hs: Set<usize>, t: Term) -> Term
    decreases ast.measure(e), j,
{
    if !(ast.wf() && ast.valid(e)) || j >= ast.vec@[e].children@.len() {
        Term::Other
    } else {
        proof { ast.lemma_node(e); }
        let c = ast.child(e, j as int);
        if hs.contains(c) {
            t
        } else {
            term_redirected(ast, c as int, hs, t)
        }
    }
}

/// The first `k` children of `e` under `term_redirected`.
pub open spec fn redirected_children(ast: &AST, e: int, hs: Set<usize>, t: Term, k: nat) -> Seq<Term>
    decreases ast.measure(e), k,
{
    if k == 0 || !(ast.wf() && ast.valid(e)) || k > ast.vec@[e].children@.len() {
        Seq::empty()
    } else {
        redirected_children(ast, e, hs, t, (k - 1) as nat).push(child_redirected(ast, e, (k - 1) as nat, hs, t))
    }
}

pub proof fn lemma_redirected_children(ast: &AST, e: int, hs: Set<usize>, t: Term, k: nat)
    requires
        ast.wf(),
        ast.valid(e),
        k <= ast.vec@[e].children@.len(),
    ensures
        redirected_children(ast, e, hs, t, k).len() == k,
        forall|j: int| 0 <= j < k ==> #[trigger] redirected_children(ast, e, hs, t, k)[j] == child_redirected(ast, e, j as nat, hs, t),
    decreases k,
{
    if k > 0 {
        lemma_redirected_children(ast, e, hs, t, (k - 1) as nat);
    }
}

/// Node `m` is node `n` with every child in `hs` (but the name of an assignment) made `x`.
pub open spec fn redirected_all(n: ASTNode, m: ASTNode, hs: Set<usize>, x: usize) -> bool {
    &&& m.t == n.t
    &&& m.info == n.info
    &&& m.dollar_app == n.dollar_app
    &&& m.wait_for_args == n.wait_for_args
    &&& m.fancy_assign_abst_syntax == n.fancy_assign_abst_syntax
    &&& m.children@.len() == n.children@.len()
    &&& forall|j: int| 0 <= j < n.children@.len() ==> #[trigger] m.children@[j] == (if hs.contains(n.children@[j])
        && !(n.t == ASTNodeType::Assignment && j == 0) {
        x
    } else {
        n.children@[j]
    })
}

/// Nodes from `mark` on are left as they were by a redirect that only touches nodes below it.
pub proof fn lemma_redirect_term_above(a: &AST, b: &AST, hs: Set<usize>, x: usize, mark: nat, e: int)
    requires
        a.wf(),
        b.wf(),
        a.vec@.len() == b.vec@.len(),
        closed_from(a, mark),
        forall|c: usize| hs.contains(c) ==> (c as int) < mark,
        forall|i: int| 0 <= i < a.vec@.len() ==> #[trigger] redirected_all(a.vec@[i], b.vec@[i], hs, x),
        mark <= e < a.vec@.len(),
    ensures
        term(b, e) == term(a, e),
    decreases a.measure(e),
{
    a.lemma_node(e);
    b.lemma_node(e);
    let n = a.vec@[e];
    assert(redirected_all(a.vec@[e], b.vec@[e], hs, x));
    assert forall|j: int| 0 <= j < n.children@.len() implies b.vec@[e].children@[j] == #[trigger] n.children@[j] by {
        assert(n.children@[j] >= mark);
    }
    assert forall|j: int| 0 <= j < n.children@.len() implies term(b, #[trigger] n.children@[j] as int) == term(a, n.children@[j] as int) by {
        assert(n.children@[j] >= mark);
        lemma_redirect_term_above(a, b, hs, x, mark, n.children@[j] as int);
    }
    if n.t == ASTNodeType::Match {
        lemma_terms_of(a, e, n.children@.len());
        lemma_terms_of(b, e, n.children@.len());
        assert(terms_of(b, e, n.children@.len()) =~= terms_of(a, e, n.children@.len()));
    }
}

/// What a redirect of the children in `hs` to `x` makes of the nodes below `mark`.
pub proof fn lemma_redirect_term(a: &AST, b: &AST, hs: Set<usize>, x: usize, mark: nat, e: int)
    requires
        a.wf(),
        b.wf(),
        a.vec@.len() == b.vec@.len(),
        mark <= x < a.vec@.len(),
        closed_from(a, mark),
        forall|i: int, j: int| 0 <= i < mark && 0 <= j < a.vec@[i].children@.len() ==> #[trigger] a.vec@[i].children@[j] < mark,
        forall|c: usize| hs.contains(c) ==> (c as int) < mark,
        forall|i: int| 0 <= i < a.vec@.len() ==> #[trigger] redirected_all(a.vec@[i], b.vec@[i], hs, x),
        0 <= e < mark,
        mark <= a.vec@.len(),
    ensures
        term(b, e) == term_redirected(a, e, hs, term(a, x as int)),
    decreases a.measure(e),
{
    a.lemma_node(e);
    b.lemma_node(e);
    let n = a.vec@[e];
    let t = term(a, x as int);
    assert(redirected_all(a.vec@[e], b.vec@[e], hs, x));
    lemma_redirect_term_above(a, b, hs, x, mark, x as int);
    assert forall|j: int| 0 <= j < n.children@.len() && n.t != ASTNodeType::Assignment && n.t != ASTNodeType::Module
        implies term(b, #[trigger] b.vec@[e].children@[j] as int) == child_redirected(a, e, j as nat, hs, t) by {
        let c = n.children@[j];
        assert(c < mark);
        if !hs.contains(c) {
            lemma_redirect_term(a, b, hs, x, mark, c as int);
        }
    }
    if n.t == ASTNodeType::Application || n.t == ASTNodeType::Pair || n.t == ASTNodeType::Abstraction {
        assert(term(b, b.child(e, 0) as int) == child_redirected(a, e, 0, hs, t));
        assert(term(b, b.child(e, 1) as int) == child_redirected(a, e, 1, hs, t));
    }
    if n.t == ASTNodeType::Match {
        lemma_terms_of(b, e, n.children@.len());
        lemma_redirected_children(a, e, hs, t, n.children@.len());
        assert(terms_of(b, e, n.children@.len()) =~= redirected_children(a, e, hs, t, n.children@.len()));
    }
}

/// A tree that keeps the nodes of another keeps what they stand for under a redirect.
pub proof fn lemma_redirected_kept(a: &AST, b: &AST, e: int, hs: Set<usize>, t: Term)
    requires
        a.wf(),
        b.wf(),
        a.valid(e),
        a.vec@.len() <= b.vec@.len(),
        forall|i: int| 0 <= i < a.vec@.len() ==> #[trigger] b.vec@[i] == a.vec@[i],
        forall|i: int| 0 <= i < a.vec@.len() ==> #[trigger] b.rank@[i] == a.rank@[i],
    ensures
        term_redirected(b, e, hs, t) == term_redirected(a, e, hs, t),
    decreases a.measure(e),
{
    a.lemma_node(e);
    b.lemma_node(e);
    let n = a.vec@[e];
    assert(b.vec@[e] == n);
    if n.t != ASTNodeType::Module && n.t != ASTNodeType::Assignment {
        assert forall|j: int| 0 <= j < n.children@.len() implies child_redirected(b, e, j as nat, hs, t) == #[trigger] child_redirected(a, e, j as nat, hs, t) by {
            lemma_redirected_kept(a, b, n.children@[j] as int, hs, t);
        }
    }
    if n.t == ASTNodeType::Application || n.t == ASTNodeType::Pair || n.t == ASTNodeType::Abstraction {
        lemma_redirected_kept(a, b, n.children@[0] as int, hs, t);
        lemma_redirected_kept(a, b, n.children@[1] as int, hs, t);
        assert(child_redirected(b, e, 0, hs, t) == child_redirected(a, e, 0, hs, t));
        assert(child_redirected(b, e, 1, hs, t) == child_redirected(a, e, 1, hs, t));
    }
    if n.t == ASTNodeType::Match {
        lemma_redirected_children(a, e, hs, t, n.children@.len());
        lemma_redirected_children(b, e, hs, t, n.children@.len());
        assert(redirected_children(b, e, hs, t, n.children@.len()) =~= redirected_children(a, e, hs, t, n.children@.len()));
    }
}

/// The expressions of the nodes `args`.
pub open spec fn arg_terms(ast: &AST, args: Seq<usize>) -> Seq<Term> {
    Seq::new(args.len(), |i: int| term(ast, args[i] as int))
}

/// Each binding names an expression of `ast`.
pub open spec fn bindings_ok(ast: &AST, s: Seq<(String, usize)>) -> bool {
    forall|i: int| 0 <= i < s.len() ==> (#[trigger] s[i].1 as int) < ast.vec@.len() && is_expr_kind(ast.vec@[s[i].1 as int].t)
}

/// The bindings of `sigma` whose names satisfy `k`, as `keep` says of each.
fn filter_bindings(ast: &AST, sigma: &Vec<(String, usize)>, keep: &Vec<bool>, Ghost(k): Ghost<spec_fn(Seq<char>) -> bool>) -> (r: Vec<(String, usize)>)
    requires
        keep@.len() == sigma@.len(),
        forall|i: int| 0 <= i < sigma@.len() ==> keep@[i] == k(#[trigger] sigma@[i].0@),
        bindings_ok(ast, sigma@),
    ensures
        first_wins(bindings_view(ast, r@)) == restrict(first_wins(bindings_view(ast, sigma@)), k),
        bindings_ok(ast, r@),
{
    let mut out: Vec<(String, usize)> = Vec::new();
    let mut i: usize = 0;
    proof {
        assert(bindings_view(ast, sigma@.take(0)) =~= Seq::empty());
        assert(bindings_view(ast, out@) =~= Seq::empty());
        assert(restrict(first_wins(Seq::empty()), k) =~= first_wins(Seq::empty()));
    }
    while i < sigma.len()
        invariant
            i <= sigma@.len(),
            keep@.len() == sigma@.len(),
            forall|j: int| 0 <= j < sigma@.len() ==> keep@[j] == k(#[trigger] sigma@[j].0@),
            bindings_ok(ast, sigma@),
            bindings_ok(ast, out@),
            first_wins(bindings_view(ast, out@)) == restrict(first_wins(bindings_view(ast, sigma@.take(i as int))), k),
        decreases sigma@.len() - i,
    {
        let ghost before = out@;
        let ghost x = bindings_view(ast, sigma@)[i as int];
        let ghost mi = first_wins(bindings_view(ast, sigma@.take(i as int)));
        proof {
            assert(bindings_view(ast, sigma@.take(i + 1)) =~= bindings_view(ast, sigma@.take(i as int)).push(x));
            lemma_first_wins_push(bindings_view(ast, sigma@.take(i as int)), x);
        }
        if keep[i] {
            out.push((sigma[i].0.clone(), sigma[i].1));
            proof {
                assert(bindings_view(ast, out@) =~= bindings_view(ast, before).push(x));
                lemma_first_wins_push(bindings_view(ast, before), x);
                assert(restrict(first_wins(bindings_view(ast, sigma@.take(i + 1))), k) =~= first_wins(bindings_view(ast, out@)));
            }
        } else {
            proof {
                assert(restrict(first_wins(bindings_view(ast, sigma@.take(i + 1))), k) =~= restrict(mi, k));
            }
        }
        i = i + 1;
    }
    proof {
        assert(sigma@.take(sigma@.len() as int) =~= sigma@);
    }
    out
}

/// Where the first binding of `name` is.
fn find_binding(sigma: &Vec<(String, usize)>, name: &String) -> (r: Option<usize>)
    ensures
        r matches Some(j) ==> j < sigma@.len() && sigma@[j as int].0@ == name@ && forall|i: int| 0 <= i < j ==> sigma@[i].0@ != name@,
        r is None ==> forall|i: int| 0 <= i < sigma@.len() ==> sigma@[i].0@ != name@,
{
    let mut i: usize = 0;
    while i < sigma.len()
        invariant
            i <= sigma@.len(),
            forall|j: int| 0 <= j < i ==> sigma@[j].0@ != name@,
        decreases sigma@.len() - i,
    {
        if str_eq(&sigma[i].0, name) {
            return Some(i);
        }
        i = i + 1;
    }
    None
}

impl AST {
    /// Copies the expression at `node` of `other` into this tree, with every free identifier
    /// that `sigma` binds replaced by a copy of the expression it is bound to (the first
    /// binding of a name counts). Returns the copy's index.
    pub fn append_subst(&mut self, other: &AST, node: usize, sigma: &Vec<(String, usize)>) -> (r: usize)
        requires
            old(self).wf(),
            other.wf(),
            node < other.vec@.len(),
            is_expr_kind(other.vec@[node as int].t),
            bindings_ok(other, sigma@),
        ensures
            final(self).wf(),
            extends(old(self), final(self)),
            old(self).vec@.len() <= r < final(self).vec@.len(),
            is_expr_kind(final(self).vec@[r as int].t),
            term(final(self), r as int) == subst(term(other, node as int), first_wins(bindings_view(other, sigma@))),
        decreases other.measure(node as int),
    {
        proof { other.lemma_node(node as int); }
        let ghost m = first_wins(bindings_view(other, sigma@));
        let n = &other.vec[node];
        let line = n.line;
        let col = n.col;
        let ghost start = *self;
        match n.t {
            ASTNodeType::Identifier => {
                let name = n.get_value();
                match find_binding(sigma, &name) {
                    Some(j) => {
                        proof {
                            assert(bindings_view(other, sigma@)[j as int] == (sigma@[j as int].0@, term(other, sigma@[j as int].1 as int)));
                            lemma_first_wins_first(bindings_view(other, sigma@), j as int);
                        }
                        let r = self.append(other, sigma[j].1);
                        proof { self.lemma_node(r as int); }
                        r
                    },
                    None => {
                        proof {
                            lemma_first_wins_none(bindings_view(other, sigma@), name@);
                        }
                        let r = self.append(other, node);
                        proof { self.lemma_node(r as int); }
                        r
                    },
                }
            },
            ASTNodeType::Literal => {
                let r = self.append(other, node);
                proof { self.lemma_node(r as int); }
                r
            },
            ASTNodeType::Application | ASTNodeType::Pair => {
                let a = self.append_subst(other, n.children[0], sigma);
                let ghost mid = *self;
                let b = self.append_subst(other, n.children[1], sigma);
                proof {
                    lemma_extends_trans(&start, &mid, self);
                    lemma_term_kept(&mid, self, a as int);
                }
                let ghost before = *self;
                let r = if n.t == ASTNodeType::Application {
                    self.add_app(a, b, line, col, n.dollar_app)
                } else {
                    self.add_pair(a, b, line, col)
                };
                proof {
                    lemma_term_kept(&before, self, a as int);
                    lemma_term_kept(&before, self, b as int);
                    self.lemma_node(r as int);
                }
                r
            },
            ASTNodeType::Abstraction => {
                let v = n.children[0];
                let body = n.children[1];
                proof { other.lemma_node(v as int); }
                let a = self.append(other, v);
                let ghost mid = *self;
                let b = if other.vec[v].t == ASTNodeType::Identifier {
                    let vname = other.vec[v].get_value();
                    let mut keep: Vec<bool> = Vec::new();
                    let mut i: usize = 0;
                    while i < sigma.len()
                        invariant
                            i <= sigma@.len(),
                            keep@.len() == i,
                            forall|j: int| 0 <= j < i ==> keep@[j] == (sigma@[j].0@ != vname@),
                        decreases sigma@.len() - i,
                    {
                        keep.push(!str_eq(&sigma[i].0, &vname));
                        i = i + 1;
                    }
                    let ghost kf = |x: Seq<char>| x != vname@;
                    let inner = filter_bindings(other, sigma, &keep, Ghost(kf));
                    proof {
                        assert(restrict(m, kf) =~= m.remove(vname@));
                    }
                    self.append_subst(other, body, &inner)
                } else {
                    self.append_subst(other, body, sigma)
                };
                proof {
                    lemma_extends_trans(&start, &mid, self);
                    lemma_term_kept(&mid, self, a as int);
                }
                let ghost before = *self;
                let r = self.add_abstraction(a, b, line, col);
                if n.fancy_assign_abst_syntax {
                    self.fancy_assign_abst_syntax(r);
                }
                if n.wait_for_args {
                    self.wait_for_args(r);
                }
                proof {
                    lemma_term_kept(&before, self, a as int);
                    lemma_term_kept(&before, self, b as int);
                    self.lemma_node(r as int);
                }
                r
            },
            _ => {
                // a match: the expression matched and each case's expression are substituted
                let ghost cs = terms_of(other, node as int, n.children@.len());
                proof {
                    lemma_terms_of(other, node as int, n.children@.len());
                    lemma_subst_cases(cs, m, cs.len());
                    assert(n.t == ASTNodeType::Match);
                }
                let cases = other.get_match_cases(node);
                let mut children: Vec<usize> = Vec::new();
                let c0 = self.append_subst(other, n.children[0], sigma);
                children.push(c0);
                let mut k: usize = 0;
                while k < cases.len()
                    invariant
                        self.wf(),
                        other.wf(),
                        node < other.vec@.len(),
                        *n == other.vec@[node as int],
                        n.t == ASTNodeType::Match,
                        bindings_ok(other, sigma@),
                        m == first_wins(bindings_view(other, sigma@)),
                        extends(&start, self),
                        2 * cases@.len() + 1 == n.children@.len(),
                        cs == terms_of(other, node as int, n.children@.len()),
                        cs.len() == n.children@.len(),
                        forall|j: int| 0 <= j < n.children@.len() ==> #[trigger] cs[j] == term(other, other.child(node as int, j) as int),
                        forall|x: int| 0 <= x < cases@.len() ==> #[trigger] cases@[x] == (other.child(node as int, 2 * x + 1), other.child(node as int, 2 * x + 2)),
                        forall|j: int| 0 <= j < n.children@.len() ==> {
                            let c = #[trigger] n.children@[j] as int;
                            &&& 0 <= c < other.vec@.len()
                            &&& other.measure(c) < other.measure(node as int)
                            &&& is_expr_kind(other.vec@[c].t)
                        },
                        k <= cases@.len(),
                        children@.len() == 2 * k + 1,
                        forall|j: int| 0 <= j < children@.len() ==> start.vec@.len() <= #[trigger] children@[j] < self.vec@.len()
                            && is_expr_kind(self.vec@[children@[j] as int].t),
                        forall|j: int| 0 <= j < children@.len() ==> term(self, #[trigger] children@[j] as int) == subst_cases(cs, m, cs.len())[j],
                    decreases cases@.len() - k,
                {
                    let (pat, e) = cases[k];
                    proof {
                        let kk = k as int;
                        assert(n.children@[2 * kk + 1] == pat);
                        assert(n.children@[2 * kk + 2] == e);
                        assert(cs[2 * kk + 1] == term(other, pat as int));
                        assert(cs[2 * kk + 2] == term(other, e as int));
                    }
                    let ghost before = *self;
                    let p = self.append(other, pat);
                    let mut keep: Vec<bool> = Vec::new();
                    let mut i: usize = 0;
                    while i < sigma.len()
                        invariant
                            other.wf(),
                            pat < other.vec@.len(),
                            is_expr_kind(other.vec@[pat as int].t),
                            i <= sigma@.len(),
                            keep@.len() == i,
                            forall|j: int| 0 <= j < i ==> keep@[j] == !has_free(term(other, pat as int), #[trigger] sigma@[j].0@),
                        decreases sigma@.len() - i,
                    {
                        let found = other.get_all_free_instances_of_var_in_exp(pat, &sigma[i].0);
                        keep.push(found.len() == 0);
                        i = i + 1;
                    }
                    let ghost pt = term(other, pat as int);
                    let ghost kf = |x: Seq<char>| !has_free(pt, x);
                    let inner = filter_bindings(other, sigma, &keep, Ghost(kf));
                    proof {
                        assert(restrict(m, kf) =~= outside_pattern(m, pt));
                    }
                    let ghost mid = *self;
                    let x = self.append_subst(other, e, &inner);
                    proof {
                        lemma_extends_trans(&before, &mid, self);
                        lemma_term_kept(&mid, self, p as int);
                        assert forall|j: int| 0 <= j < children@.len() implies term(self, #[trigger] children@[j] as int) == subst_cases(cs, m, cs.len())[j] by {
                            lemma_term_kept(&before, self, children@[j] as int);
                        }
                        lemma_extends_trans(&start, &before, self);
                    }
                    proof {
                        lemma_subst_cases(cs, m, cs.len());
                    }
                    children.push(p);
                    children.push(x);
                    k = k + 1;
                }
                let ghost before = *self;
                let r = self.add_match(children, line, col);
                proof {
                    self.lemma_node(r as int);
                    assert forall|j: int| 0 <= j < children@.len() implies term(self, #[trigger] children@[j] as int) == subst_cases(cs, m, cs.len())[j] by {
                        lemma_term_kept(&before, self, children@[j] as int);
                    }
                    lemma_terms_of(self, r as int, children@.len());
                    assert(terms_of(self, r as int, children@.len()) =~= subst_cases(cs, m, cs.len()));
                }
                r
            },
        }
    }
}

/// Node `m` is node `n` with every child `old_node` made `new_node`.
pub open spec fn retargeted(n: ASTNode, m: ASTNode, old_node: usize, new_node: usize) -> bool {
    &&& m.t == n.t
    &&& m.info == n.info
    &&& m.line == n.line
    &&& m.col == n.col
    &&& m.type_assignment == n.type_assignment
    &&& m.children@.len() == n.children@.len()
    &&& forall|j: int| 0 <= j < n.children@.len() ==> #[trigger] m.children@[j] == (if n.children@[j] == old_node {
        new_node
    } else {
        n.children@[j]
    })
}

impl AST {
    /// Makes every reference to node `old_node`, the root and every child of every node,
    /// refer to `new_node`. Nothing is claimed of the tree's shape afterwards.
    pub fn replace(&mut self, old_node: usize, new_node: usize)
        ensures
            final(self).vec@.len() == old(self).vec@.len(),
            forall|i: int| 0 <= i < old(self).vec@.len() ==> #[trigger] retargeted(old(self).vec@[i], final(self).vec@[i], old_node, new_node),
            final(self).root == (if old(self).root == old_node { new_node } else { old(self).root }),
    {
        let ghost a = *self;
        if self.root == old_node {
            self.root = new_node;
        }
        let n = self.vec.len();
        let mut i: usize = 0;
        while i < n
            invariant
                n == self.vec@.len(),
                n == a.vec@.len(),
                i <= n,
                forall|k: int| 0 <= k < i ==> #[trigger] retargeted(a.vec@[k], self.vec@[k], old_node, new_node),
                forall|k: int| i <= k < n ==> #[trigger] self.vec@[k] == a.vec@[k],
                self.root == (if a.root == old_node { new_node } else { a.root }),
            decreases n - i,
        {
            let m = self.vec[i].children.len();
            let mut j: usize = 0;
            while j < m
                invariant
                    n == self.vec@.len(),
                    i < n,
                    j <= m,
                    m == a.vec@[i as int].children@.len(),
                    self.vec@[i as int].t == a.vec@[i as int].t,
                    self.vec@[i as int].info == a.vec@[i as int].info,
                    self.vec@[i as int].line == a.vec@[i as int].line,
                    self.vec@[i as int].col == a.vec@[i as int].col,
                    self.vec@[i as int].type_assignment == a.vec@[i as int].type_assignment,
                    self.vec@[i as int].children@.len() == m,
                    forall|x: int| 0 <= x < j ==> #[trigger] self.vec@[i as int].children@[x] == (if a.vec@[i as int].children@[x] == old_node { new_node } else { a.vec@[i as int].children@[x] }),
                    forall|x: int| j <= x < m ==> #[trigger] self.vec@[i as int].children@[x] == a.vec@[i as int].children@[x],
                    forall|k: int| 0 <= k < i ==> #[trigger] retargeted(a.vec@[k], self.vec@[k], old_node, new_node),
                    forall|k: int| i < k < n ==> #[trigger] self.vec@[k] == a.vec@[k],
                    self.root == (if a.root == old_node { new_node } else { a.root }),
                decreases m - j,
            {
                if self.vec[i].children[j] == old_node {
                    self.vec[i].children.set(j, new_node);
                }
                j = j + 1;
            }
            i = i + 1;
        }
    }
}

/// The expression `e` is made of literals, identifiers, applications, pairs and
/// abstractions over identifiers other than `var`.
pub open spec fn simple_without_binder(ast: &AST, e: int, var: Seq<char>) -> bool
    decreases ast.measure(e),
{
    if !(ast.wf() && ast.valid(e)) {
        false
    } else {
        proof { ast.lemma_node(e); }
        let n = ast.vec@[e];
        match n.t {
            ASTNodeType::Literal | ASTNodeType::Identifier => true,
            ASTNodeType::Application | ASTNodeType::Pair => simple_without_binder(ast, ast.child(e, 0) as int, var)
                && simple_without_binder(ast, ast.child(e, 1) as int, var),
            ASTNodeType::Abstraction => {
                let v = ast.child(e, 0) as int;
                &&& ast.vec@[v].t == ASTNodeType::Identifier
                &&& ast.value_of(v) != var
                &&& simple_without_binder(ast, ast.child(e, 1) as int, var)
            },
            _ => false,
        }
    }
}

/// The identifiers named `var` in `e`, left to right.
pub open spec fn instances_in(ast: &AST, e: int, var: Seq<char>) -> Seq<usize>
    decreases ast.measure(e),
{
    if !(ast.wf() && ast.valid(e)) {
        Seq::empty()
    } else {
        proof { ast.lemma_node(e); }
        let n = ast.vec@[e];
        match n.t {
            ASTNodeType::Identifier => if ast.value_of(e) == var { seq![e as usize] } else { Seq::empty() },
            ASTNodeType::Application | ASTNodeType::Pair => instances_in(ast, ast.child(e, 0) as int, var)
                + instances_in(ast, ast.child(e, 1) as int, var),
            ASTNodeType::Abstraction => instances_in(ast, ast.child(e, 1) as int, var),
            _ => Seq::empty(),
        }
    }
}

impl AST {
    /// The identifiers named `var` in `exp`, left to right; `exp` holds no abstraction
    /// over `var` and nothing but literals, identifiers, applications, pairs and
    /// abstractions.
    pub fn get_all_instances_of_var_in_exp(&self, exp: usize, var: &String) -> (r: Vec<usize>)
        requires
            simple_without_binder(self, exp as int, var@),
        ensures
            r@ == instances_in(self, exp as int, var@),
        decreases self.measure(exp as int),
    {
        proof { self.lemma_node(exp as int); }
        let n = &self.vec[exp];
        match n.t {
            ASTNodeType::Identifier => {
                let v = n.get_value();
                if str_eq(&v, var) {
                    vec![exp]
                } else {
                    Vec::new()
                }
            },
            ASTNodeType::Application | ASTNodeType::Pair => {
                let mut left = self.get_all_instances_of_var_in_exp(n.children[0], var);
                let right = self.get_all_instances_of_var_in_exp(n.children[1], var);
                let ghost l0 = left@;
                append_indices(&mut left, &right);
                proof { assert(left@ =~= l0 + right@); }
                left
            },
            ASTNodeType::Abstraction => self.get_all_instances_of_var_in_exp(n.children[1], var),
            _ => Vec::new(),
        }
    }
}

/// The identifiers named `var` that are free in `e`, left to right: not under an
/// abstraction over an identifier `var`, nor in the expression of a match case whose
/// pattern holds `var` free.
pub open spec fn free_instances(ast: &AST, e: int, var: Seq<char>) -> Seq<usize>
    decreases ast.measure(e), 1nat, 0nat,
{
    if !(ast.wf() && ast.valid(e)) {
        Seq::empty()
    } else {
        proof { ast.lemma_node(e); }
        let n = ast.vec@[e];
        match n.t {
            ASTNodeType::Identifier => if ast.value_of(e) == var { seq![e as usize] } else { Seq::empty() },
            ASTNodeType::Application | ASTNodeType::Pair => free_instances(ast, ast.child(e, 0) as int, var)
                + free_instances(ast, ast.child(e, 1) as int, var),
            ASTNodeType::Abstraction => {
                let b = ast.child(e, 0) as int;
                if ast.vec@[b].t == ASTNodeType::Identifier && ast.value_of(b) == var {
                    Seq::empty()
                } else {
                    free_instances(ast, ast.child(e, 1) as int, var)
                }
            },
            ASTNodeType::Match => free_instances(ast, ast.child(e, 0) as int, var) + free_in_cases(
                ast,
                e,
                var,
                ((n.children@.len() - 1) / 2) as nat,
            ),
            _ => Seq::empty(),
        }
    }
}

/// `free_instances` in the first `k` cases of the match `e`: a case whose pattern holds
/// `var` free adds nothing.
pub open spec fn free_in_cases(ast: &AST, e: int, var: Seq<char>, k: nat) -> Seq<usize>
    decreases ast.measure(e), 0nat, k,
{
    if !(ast.wf() && ast.valid(e)) || k == 0 || 2 * k + 1 > ast.vec@[e].children@.len() {
        Seq::empty()
    } else {
        proof { ast.lemma_node(e); }
        let p = ast.child(e, 2 * k - 1) as int;
        let x = ast.child(e, (2 * k) as int) as int;
        free_in_cases(ast, e, var, (k - 1) as nat) + if free_instances(ast, p, var).len() == 0 {
            free_instances(ast, x, var)
        } else {
            Seq::empty()
        }
    }
}

impl AST {
    /// The identifiers named `var` in the expression `exp` that are free there (not bound
    /// by an abstraction inside it). A match case whose pattern names `var` binds it anew,
    /// so its expression is not searched.
    pub fn get_all_free_instances_of_var_in_exp(&self, exp: usize, var: &String) -> (r: Vec<usize>)
        requires
            self.wf(),
            exp < self.vec@.len(),
            is_expr_kind(self.vec@[exp as int].t),
        ensures
            forall|k: int| 0 <= k < r@.len() ==> {
                let u = #[trigger] r@[k] as int;
                &&& 0 <= u < self.vec@.len()
                &&& self.vec@[u].t == ASTNodeType::Identifier
                &&& self.value_of(u) == var@
            },
            r@.len() > 0 <==> has_free(term(self, exp as int), var@),
            r@ == free_instances(self, exp as int, var@),
        decreases self.measure(exp as int),
    {
        proof { self.lemma_node(exp as int); }
        let n = &self.vec[exp];
        match n.t {
            ASTNodeType::Identifier => {
                let v = n.get_value();
                if str_eq(&v, var) {
                    vec![exp]
                } else {
                    Vec::new()
                }
            },
            ASTNodeType::Application | ASTNodeType::Pair => {
                let mut left = self.get_all_free_instances_of_var_in_exp(n.children[0], var);
                let right = self.get_all_free_instances_of_var_in_exp(n.children[1], var);
                append_indices(&mut left, &right);
                left
            },
            ASTNodeType::Abstraction => {
                let bound = n.children[0];
                proof { self.lemma_node(bound as int); }
                let shadowed = match self.vec[bound].t {
                    ASTNodeType::Identifier => {
                        let v = self.vec[bound].get_value();
                        str_eq(&v, var)
                    },
                    _ => false,
                };
                if shadowed {
                    Vec::new()
                } else {
                    self.get_all_free_instances_of_var_in_exp(n.children[1], var)
                }
            },
            ASTNodeType::Match => {
                let ghost cs = terms_of(self, exp as int, n.children@.len());
                proof {
                    lemma_terms_of(self, exp as int, n.children@.len());
                }
                let mut instances = self.get_all_free_instances_of_var_in_exp(n.children[0], var);
                proof { assert(instances@ =~= instances@ + free_in_cases(self, exp as int, var@, 0)); }
                let cases = self.get_match_cases(exp);
                proof {
                    reveal_with_fuel(cases_have_free, 2);
                }
                let mut k: usize = 0;
                while k < cases.len()
                    invariant
                        self.wf(),
                        exp < self.vec@.len(),
                        *n == self.vec@[exp as int],
                        n.t == ASTNodeType::Match,
                        2 * cases@.len() + 1 == n.children@.len(),
                        cs == terms_of(self, exp as int, n.children@.len()),
                        cs.len() == n.children@.len(),
                        forall|j: int| 0 <= j < n.children@.len() ==> #[trigger] cs[j] == term(self, self.child(exp as int, j) as int),
                        forall|x: int| 0 <= x < cases@.len() ==> #[trigger] cases@[x] == (self.child(exp as int, 2 * x + 1), self.child(exp as int, 2 * x + 2)),
                        forall|j: int| 0 <= j < n.children@.len() ==> {
                            let c = #[trigger] n.children@[j] as int;
                            &&& 0 <= c < self.vec@.len()
                            &&& self.measure(c) < self.measure(exp as int)
                            &&& is_expr_kind(self.vec@[c].t)
                        },
                        k <= cases@.len(),
                        forall|x: int| 0 <= x < instances@.len() ==> {
                            let u = #[trigger] instances@[x] as int;
                            &&& 0 <= u < self.vec@.len()
                            &&& self.vec@[u].t == ASTNodeType::Identifier
                            &&& self.value_of(u) == var@
                        },
                        instances@.len() > 0 <==> cases_have_free(cs, var@, (2 * k + 1) as nat),
                        instances@ == free_instances(self, n.children@[0] as int, var@) + free_in_cases(self, exp as int, var@, k as nat),
                    decreases cases@.len() - k,
                {
                    let (pat, e) = cases[k];
                    proof {
                        let kk = k as int;
                        assert(n.children@[2 * kk + 1] == pat);
                        assert(n.children@[2 * kk + 2] == e);
                        assert(cs[2 * kk + 1] == term(self, pat as int));
                        assert(cs[2 * kk + 2] == term(self, e as int));
                    }
                    let ghost i0 = instances@;
                    let in_pattern = self.get_all_free_instances_of_var_in_exp(pat, var);
                    if in_pattern.len() == 0 {
                        let more = self.get_all_free_instances_of_var_in_exp(e, var);
                        append_indices(&mut instances, &more);
                        proof {
                            assert(free_in_cases(self, exp as int, var@, (k + 1) as nat) == free_in_cases(self, exp as int, var@, k as nat) + more@);
                        }
                    } else {
                        proof {
                            assert(free_in_cases(self, exp as int, var@, (k + 1) as nat) =~= free_in_cases(self, exp as int, var@, k as nat));
                        }
                    }
                    proof {
                        let kk = k as int;
                        assert(cases_have_free(cs, var@, (2 * kk + 2) as nat) == cases_have_free(cs, var@, (2 * kk + 1) as nat));
                        assert(cases_have_free(cs, var@, (2 * kk + 3) as nat) == ((!has_free(cs[2 * kk + 1], var@) && has_free(cs[2 * kk + 2], var@))
                            || cases_have_free(cs, var@, (2 * kk + 2) as nat)));
                    }
                    k = k + 1;
                }
                instances
            },
            _ => Vec::new(),
        }
    }

    /// The uses of the variable an abstraction binds, in its body.
    pub fn get_abst_var_usages(&self, abst: usize) -> (r: Vec<usize>)
        requires
            self.wf(),
            abst < self.vec@.len(),
            self.vec@[abst as int].t == ASTNodeType::Abstraction,
            self.vec@[self.child(abst as int, 0) as int].t == ASTNodeType::Identifier,
        ensures
            forall|k: int| 0 <= k < r@.len() ==> {
                let u = #[trigger] r@[k] as int;
                &&& 0 <= u < self.vec@.len()
                &&& self.vec@[u].t == ASTNodeType::Identifier
                &&& self.value_of(u) == self.value_of(self.child(abst as int, 0) as int)
            },
            r@ == free_instances(self, self.child(abst as int, 1) as int, self.value_of(self.child(abst as int, 0) as int)),
    {
        proof { self.lemma_node(abst as int); }
        let var = self.get_abstr_var(abst);
        proof { self.lemma_node(var as int); }
        let name = self.vec[var].get_value();
        self.get_all_free_instances_of_var_in_exp(self.get_abstr_expr(abst), &name)
    }

    /// The variables of the first `n` nested abstractions starting at `abstr`, outermost
    /// first (fewer if the nesting is shallower).
    pub fn get_n_abstr_vars(&self, abstr: usize, n: usize) -> (r: Vec<usize>)
        requires
            self.wf(),
            abstr < self.vec@.len(),
        ensures
            r@.len() == self.abstr_depth(abstr as int, n as nat),
            forall|k: int| 0 <= k < r@.len() ==> (#[trigger] r@[k] as int) < self.vec@.len(),
            forall|k: int| 0 <= k < r@.len() ==> #[trigger] r@[k] == self.abstr_var_at(abstr as int, k as nat),
        decreases n,
    {
        if n == 0 || self.vec[abstr].t != ASTNodeType::Abstraction {
            Vec::new()
        } else {
            proof { self.lemma_node(abstr as int); }
            let var = self.get_abstr_var(abstr);
            let body = self.get_abstr_expr(abstr);
            let rest = self.get_n_abstr_vars(body, n - 1);
            let mut out = vec![var];
            append_indices(&mut out, &rest);
            proof {
                assert forall|k: int| 0 <= k < out@.len() implies #[trigger] out@[k] == self.abstr_var_at(abstr as int, k as nat) by {
                    if k > 0 {
                        assert(out@[k] == rest@[k - 1]);
                    }
                }
            }
            out
        }
    }

    /// The variable of the `k`-th abstraction nested at `a` (counting from 0).
    pub open spec fn abstr_var_at(&self, a: int, k: nat) -> usize
        decreases k,
    {
        if k == 0 {
            self.child(a, 0)
        } else {
            self.abstr_var_at(self.child(a, 1) as int, (k - 1) as nat)
        }
    }

    /// How many abstractions are nested at `a`, counting at most `n`.
    pub open spec fn abstr_depth(&self, a: int, n: nat) -> nat
        decreases n,
    {
        if n == 0 || !self.valid(a) || self.vec@[a].t != ASTNodeType::Abstraction || self.vec@[a].children@.len() < 2 {
            0
        } else {
            1 + self.abstr_depth(self.child(a, 1) as int, (n - 1) as nat)
        }
    }
}

/// Appends the indices of `b` to `a`.
pub fn append_indices(a: &mut Vec<usize>, b: &Vec<usize>)
    ensures
        final(a)@ == old(a)@ + b@,
{
    let mut k: usize = 0;
    let ghost a0 = a@;
    while k < b.len()
        invariant
            k <= b@.len(),
            a@ == a0 + b@.subrange(0, k as int),
        decreases b@.len() - k,
    {
        a.push(b[k]);
        k = k + 1;
        assert(a@ =~= a0 + b@.subrange(0, k as int));
    }
    assert(b@.subrange(0, b@.len() as int) =~= b@);
}

/// The tree only grew: every node kept its kind.
pub open spec fn kinds_kept(a: &AST, b: &AST) -> bool {
    &&& a.vec@.len() <= b.vec@.len()
    &&& forall|i: int| 0 <= i < a.vec@.len() ==> #[trigger] b.vec@[i].t == a.vec@[i].t
}

/// Each variable of the binder `var` with the part of `subst` it receives, left to right:
/// an identifier receives `subst`; a pair of variables takes a pair apart; a pair of
/// variables receives nothing from what is not a pair.
pub open spec fn var_substs(ast: &AST, var: int, subst: int) -> Seq<(usize, usize)>
    decreases ast.measure(var),
{
    if !(ast.wf() && ast.valid(var) && ast.valid(subst)) {
        Seq::empty()
    } else {
        proof { ast.lemma_node(var); ast.lemma_node(subst); }
        let t = ast.vec@[var].t;
        if t == ASTNodeType::Identifier {
            seq![(var as usize, subst as usize)]
        } else if t == ASTNodeType::Pair && ast.vec@[subst].t == ASTNodeType::Pair {
            var_substs(ast, ast.child(var, 0) as int, ast.child(subst, 0) as int) + var_substs(
                ast,
                ast.child(var, 1) as int,
                ast.child(subst, 1) as int,
            )
        } else {
            Seq::empty()
        }
    }
}

/// `b` is `a` with the references to node `u` (outside the part from `mark` on) made to
/// refer to `x`, as `replace_references_to_node` does; a use from `mark` on is left alone.
pub open spec fn redirect_step(a: AST, b: AST, u: usize, x: usize, mark: nat) -> bool {
    if u < mark {
        &&& b.wf()
        &&& closed_from(&b, mark)
        &&& b.vec@.len() == a.vec@.len()
        &&& forall|i: int| 0 <= i < a.vec@.len() ==> #[trigger] redirected(a.vec@[i], b.vec@[i], u, x)
        &&& b.root == (if a.root == u { x } else { a.root })
    } else {
        b == a
    }
}

/// `b` is `a` with every free use of the name of the variable `v` in the body of the
/// abstraction at the root (as `free_instances` lists them in `a`) redirected to `x`, one
/// after the other.
pub open spec fn uses_redirected(a: AST, b: AST, v: usize, x: usize, mark: nat) -> bool {
    let us = free_instances(&a, a.child(a.root as int, 1) as int, a.value_of(v as int));
    exists|ts: Seq<AST>|
        ts.len() == us.len() + 1 && ts[0] == a && ts[us.len() as int] == b
        && forall|j: int| 0 <= j < us.len() ==> redirect_step(#[trigger] ts[j], ts[j + 1], us[j], x, mark)
}

/// `b` is what contracting the redex `rc` inside `within` makes of `a`, as far as
/// `do_rc_subst` states it: every node of `a` stands for what it stood for with the
/// redexes it reaches (see `hits`) replaced by what `rc` contracts to.
pub open spec fn rc_subst_done(a: AST, b: AST, within: int, rc: RCPair) -> bool {
    &&& b.wf()
    &&& kinds_kept(&a, &b)
    &&& forall|e: int| 0 <= e < a.vec@.len() ==> #[trigger] term(&b, e) == term_redirected(
        &a,
        e,
        hits(&a, within, rc.from as int).to_set(),
        term(&rc.to, rc.to.root as int),
    )
}

/// One step of `do_rc_subst_and_identical_rcs`: where the redex of `rc` is written like
/// the node `from0`, `b` is `a` with it contracted inside `within`; otherwise `b` is `a`.
pub open spec fn identical_step(a: AST, b: AST, within: int, from0: int, rc: RCPair) -> bool {
    if a.same_expr(from0, rc.from as int) {
        rc_subst_done(a, b, within, rc)
    } else {
        b == a
    }
}

impl AST {
    /// Pairs each variable of the binder `var` (an identifier or nested pairs of them) with
    /// the part of `subst` that it receives. Where `subst` is not a pair but `var` is, the
    /// variables inside get nothing.
    pub fn collect_var_substs(&self, var: usize, subst: usize, mark: usize) -> (r: Vec<(usize, usize)>)
        requires
            self.wf(),
            var < self.vec@.len(),
            mark <= subst < self.vec@.len(),
            closed_from(self, mark as nat),
            is_expr_kind(self.vec@[subst as int].t),
        ensures
            forall|k: int| 0 <= k < r@.len() ==> {
                let (v, x) = #[trigger] r@[k];
                &&& (v as int) < self.vec@.len()
                &&& self.vec@[v as int].t == ASTNodeType::Identifier
                &&& mark <= x < self.vec@.len()
                &&& is_expr_kind(self.vec@[x as int].t)
            },
            r@ == var_substs(self, var as int, subst as int),
        decreases self.measure(var as int),
    {
        proof { self.lemma_node(var as int); self.lemma_node(subst as int); }
        let t = self.vec[var].t;
        if t == ASTNodeType::Identifier {
            vec![(var, subst)]
        } else if t == ASTNodeType::Pair && self.vec[subst].t == ASTNodeType::Pair {
            let v1 = self.get_first(var);
            let v2 = self.get_second(var);
            let s1 = self.get_first(subst);
            let s2 = self.get_second(subst);
            let mut a = self.collect_var_substs(v1, s1, mark);
            let b = self.collect_var_substs(v2, s2, mark);
            let ghost a0 = a@;
            let mut k: usize = 0;
            while k < b.len()
                invariant
                    k <= b@.len(),
                    a@ == a0 + b@.subrange(0, k as int),
                decreases b@.len() - k,
            {
                a.push(b[k]);
                k = k + 1;
                assert(a@ =~= a0 + b@.subrange(0, k as int));
            }
            assert(b@.subrange(0, b@.len() as int) =~= b@);
            a
        } else {
            Vec::new()
        }
    }

    /// Substitutes in the body of the abstraction at the root: the uses of the variables of
    /// `var` receive the matching parts of `subst`. `subst` lies in the part of the tree
    /// from `mark` on, which only refers to itself; uses inside that part are left alone.
    pub fn replace_var_usages_in_top_level_abstraction(&mut self, var: usize, subst: usize, mark: usize)
        requires
            old(self).wf(),
            var < old(self).vec@.len(),
            mark <= subst < old(self).vec@.len(),
            closed_from(old(self), mark as nat),
            is_expr_kind(old(self).vec@[subst as int].t),
            old(self).root < old(self).vec@.len(),
            old(self).vec@[old(self).root as int].t == ASTNodeType::Abstraction,
        ensures
            final(self).wf(),
            final(self).root == old(self).root,
            kinds_kept(old(self), final(self)),
            final(self).vec@.len() == old(self).vec@.len(),
            closed_from(final(self), mark as nat),
            ({
                let ps = var_substs(old(self), var as int, subst as int);
                exists|ts: Seq<AST>|
                    ts.len() == ps.len() + 1 && ts[0] == *old(self) && ts[ps.len() as int] == *final(self)
                    && forall|k: int| 0 <= k < ps.len() ==> uses_redirected(#[trigger] ts[k], ts[k + 1], ps[k].0, ps[k].1, mark as nat)
            }),
    {
        let pairs = self.collect_var_substs(var, subst, mark);
        let ghost start = *self;
        let ghost mut ts: Seq<AST> = seq![*self];
        let mut k: usize = 0;
        while k < pairs.len()
            invariant
                ts.len() == k + 1,
                ts[0] == start,
                ts[k as int] == *self,
                pairs@ == var_substs(&start, var as int, subst as int),
                forall|kk: int| 0 <= kk < k ==> uses_redirected(#[trigger] ts[kk], ts[kk + 1], pairs@[kk].0, pairs@[kk].1, mark as nat),
                self.wf(),
                self.vec@.len() == start.vec@.len(),
                kinds_kept(&start, self),
                closed_from(self, mark as nat),
                self.root == start.root,
                start.root < start.vec@.len(),
                start.vec@[start.root as int].t == ASTNodeType::Abstraction,
                forall|x: int| 0 <= x < pairs@.len() ==> {
                    let (v, y) = #[trigger] pairs@[x];
                    &&& (v as int) < start.vec@.len()
                    &&& start.vec@[v as int].t == ASTNodeType::Identifier
                    &&& mark <= y < start.vec@.len()
                    &&& is_expr_kind(start.vec@[y as int].t)
                },
                k <= pairs@.len(),
            decreases pairs@.len() - k,
        {
            let (v, x) = pairs[k];
            proof { self.lemma_node(v as int); }
            let name = self.vec[v].get_value();
            let body = self.get_abstr_expr(self.root);
            proof { self.lemma_node(self.root as int); }
            let usages = self.get_all_free_instances_of_var_in_exp(body, &name);
            let ghost a_k = *self;
            let ghost mut us_t: Seq<AST> = seq![*self];
            let mut j: usize = 0;
            while j < usages.len()
                invariant
                    us_t.len() == j + 1,
                    us_t[0] == a_k,
                    us_t[j as int] == *self,
                    forall|jj: int| 0 <= jj < j ==> redirect_step(#[trigger] us_t[jj], us_t[jj + 1], usages@[jj], x, mark as nat),
                    self.wf(),
                    self.vec@.len() == start.vec@.len(),
                    kinds_kept(&start, self),
                    closed_from(self, mark as nat),
                    self.root == start.root,
                    start.vec@[start.root as int].t == ASTNodeType::Abstraction,
                    mark <= x < start.vec@.len(),
                    is_expr_kind(start.vec@[x as int].t),
                    forall|y: int| 0 <= y < usages@.len() ==> (#[trigger] usages@[y] as int) < start.vec@.len()
                        && start.vec@[usages@[y] as int].t == ASTNodeType::Identifier,
                    j <= usages@.len(),
                decreases usages@.len() - j,
            {
                let u = usages[j];
                let ghost before = *self;
                if u < mark {
                    self.replace_references_to_node(u, x, mark);
                    proof {
                        assert forall|i: int| 0 <= i < start.vec@.len() implies #[trigger] self.vec@[i].t == start.vec@[i].t by {
                            assert(redirected(before.vec@[i], self.vec@[i], u, x));
                        }
                    }
                }
                proof {
                    assert(redirect_step(before, *self, u, x, mark as nat));
                    let old_t = us_t;
                    us_t = us_t.push(*self);
                    assert forall|jj: int| 0 <= jj < j + 1 implies redirect_step(#[trigger] us_t[jj], us_t[jj + 1], usages@[jj], x, mark as nat) by {
                        if jj < j {
                            assert(us_t[jj] == old_t[jj] && us_t[jj + 1] == old_t[jj + 1]);
                        }
                    }
                }
                j = j + 1;
            }
            proof {
                assert(usages@ == free_instances(&a_k, a_k.child(a_k.root as int, 1) as int, a_k.value_of(v as int)));
                assert(uses_redirected(a_k, *self, v, x, mark as nat)) by {
                    assert(us_t.len() == usages@.len() + 1 && us_t[0] == a_k && us_t[usages@.len() as int] == *self);
                }
                let old_ts = ts;
                ts = ts.push(*self);
                assert forall|kk: int| 0 <= kk < k + 1 implies uses_redirected(#[trigger] ts[kk], ts[kk + 1], pairs@[kk].0, pairs@[kk].1, mark as nat) by {
                    if kk < k {
                        assert(ts[kk] == old_ts[kk] && ts[kk + 1] == old_ts[kk + 1]);
                    }
                }
            }
            k = k + 1;
        }
        proof {
            assert(ts.len() == pairs@.len() + 1 && ts[0] == start && ts[pairs@.len() as int] == *self);
        }
    }

    /// What each name of the variable (or pattern of pairs) `var` receives from `subst`
    /// (see `pattern_binds`).
    pub fn pattern_bindings(&self, var: usize, subst: usize) -> (r: Vec<(String, usize)>)
        requires
            self.wf(),
            var < self.vec@.len(),
            subst < self.vec@.len(),
            is_expr_kind(self.vec@[subst as int].t),
        ensures
            bindings_view(self, r@) == pattern_binds(term(self, var as int), term(self, subst as int)),
            bindings_ok(self, r@),
        decreases self.measure(var as int),
    {
        proof { self.lemma_node(var as int); self.lemma_node(subst as int); }
        let t = self.vec[var].t;
        if t == ASTNodeType::Identifier {
            let r = vec![(self.vec[var].get_value(), subst)];
            proof {
                assert(bindings_view(self, r@) =~= pattern_binds(term(self, var as int), term(self, subst as int)));
            }
            r
        } else if t == ASTNodeType::Pair && self.vec[subst].t == ASTNodeType::Pair {
            let v1 = self.get_first(var);
            let v2 = self.get_second(var);
            let s1 = self.get_first(subst);
            let s2 = self.get_second(subst);
            let mut a = self.pattern_bindings(v1, s1);
            let b = self.pattern_bindings(v2, s2);
            let ghost a0 = a@;
            let mut k: usize = 0;
            while k < b.len()
                invariant
                    k <= b@.len(),
                    a@ == a0 + b@.subrange(0, k as int),
                decreases b@.len() - k,
            {
                a.push((b[k].0.clone(), b[k].1));
                k = k + 1;
                proof {
                    assert(a@ =~= a0 + b@.subrange(0, k as int)) by {
                        assert(a@[a@.len() - 1].0@ == b@[k - 1].0@);
                    }
                }
            }
            proof {
                assert(b@.subrange(0, b@.len() as int) =~= b@);
                assert(bindings_view(self, a@) =~= bindings_view(self, a0) + bindings_view(self, b@));
            }
            a
        } else {
            let r: Vec<(String, usize)> = Vec::new();
            proof {
                assert(bindings_view(self, r@) =~= Seq::empty());
            }
            r
        }
    }

    /// The body of the abstraction `abstr` with its variable replaced by the expression
    /// `subst` (see `beta`), as a tree of its own.
    pub fn do_abst_subst(&self, abstr: usize, subst: usize) -> (r: AST)
        requires
            self.wf(),
            abstr < self.vec@.len(),
            self.vec@[abstr as int].t == ASTNodeType::Abstraction,
            subst < self.vec@.len(),
            is_expr_kind(self.vec@[subst as int].t),
        ensures
            r.wf(),
            r.root < r.vec@.len(),
            is_expr_kind(r.vec@[r.root as int].t),
            term(&r, r.root as int) == beta(term(self, abstr as int), term(self, subst as int)),
    {
        proof { self.lemma_node(abstr as int); }
        let v = self.get_abstr_var(abstr);
        let body = self.get_abstr_expr(abstr);
        let sigma = self.pattern_bindings(v, subst);
        let mut r = AST::new();
        let root = r.append_subst(self, body, &sigma);
        let ghost before = r;
        r.root = root;
        proof { lemma_term_kept(&before, &r, root as int); }
        r
    }

    /// Applies the abstraction `abst` to the arguments `substs`, the last one first (the
    /// arguments of an application are collected from the outside in), while what is
    /// applied is an abstraction (see `apply_args`).
    pub fn do_multiple_abst_substs(&self, abst: usize, substs: Vec<usize>) -> (r: AST)
        requires
            self.wf(),
            abst < self.vec@.len(),
            self.vec@[abst as int].t == ASTNodeType::Abstraction,
            substs@.len() > 0,
            forall|k: int| 0 <= k < substs@.len() ==> (#[trigger] substs@[k] as int) < self.vec@.len()
                && is_expr_kind(self.vec@[substs@[k] as int].t),
        ensures
            r.wf(),
            r.root < r.vec@.len(),
            is_expr_kind(r.vec@[r.root as int].t),
            term(&r, r.root as int) == apply_args(term(self, abst as int), arg_terms(self, substs@)),
    {
        let ghost args = arg_terms(self, substs@);
        let n = substs.len();
        proof {
            self.lemma_node(abst as int);
            assert(args.drop_last() =~= args.take(n - 1));
        }
        let mut abst_ast = self.do_abst_subst(abst, substs[n - 1]);
        let mut k = n - 1;
        while k > 0 && abst_ast.vec[abst_ast.root].t == ASTNodeType::Abstraction
            invariant
                self.wf(),
                abst_ast.wf(),
                abst_ast.root < abst_ast.vec@.len(),
                is_expr_kind(abst_ast.vec@[abst_ast.root as int].t),
                k < n,
                n == substs@.len(),
                args == arg_terms(self, substs@),
                forall|j: int| 0 <= j < substs@.len() ==> (#[trigger] substs@[j] as int) < self.vec@.len()
                    && is_expr_kind(self.vec@[substs@[j] as int].t),
                apply_args(term(&abst_ast, abst_ast.root as int), args.take(k as int)) == apply_args(term(self, abst as int), args),
            decreases k,
        {
            let ghost before = abst_ast;
            let s = abst_ast.append(self, substs[k - 1]);
            proof {
                lemma_term_kept(&before, &abst_ast, abst_ast.root as int);
                abst_ast.lemma_node(abst_ast.root as int);
                assert(args.take(k as int).drop_last() =~= args.take(k - 1));
            }
            abst_ast = abst_ast.do_abst_subst(abst_ast.root, s);
            k = k - 1;
        }
        abst_ast
    }

    /// The nodes inside `within` that are written like `old` (see `hits`).
    pub fn rc_collect(&self, within: usize, old: usize) -> (r: Vec<usize>)
        requires
            self.wf(),
            within < self.vec@.len(),
            old < self.vec@.len(),
            is_expr_kind(self.vec@[within as int].t),
        ensures
            r@ == hits(self, within as int, old as int),
            forall|k: int| 0 <= k < r@.len() ==> (#[trigger] r@[k] as int) < self.vec@.len()
                && is_expr_kind(self.vec@[r@[k] as int].t),
        decreases self.measure(within as int),
    {
        proof { self.lemma_node(within as int); }
        if within == old || self.expr_eq(within, old) {
            return vec![within];
        }
        let n = &self.vec[within];
        match n.t {
            ASTNodeType::Application | ASTNodeType::Pair => {
                let mut a = self.rc_collect(n.children[0], old);
                let b = self.rc_collect(n.children[1], old);
                append_indices(&mut a, &b);
                a
            },
            ASTNodeType::Match => {
                let mut a = self.rc_collect(n.children[0], old);
                let ghost a0 = a@;
                let cases = self.get_match_cases(within);
                let mut k: usize = 0;
                while k < cases.len()
                    invariant
                        self.wf(),
                        within < self.vec@.len(),
                        old < self.vec@.len(),
                        *n == self.vec@[within as int],
                        n.t == ASTNodeType::Match,
                        2 * cases@.len() + 1 == n.children@.len(),
                        forall|x: int| 0 <= x < cases@.len() ==> #[trigger] cases@[x] == (self.child(within as int, 2 * x + 1), self.child(within as int, 2 * x + 2)),
                        forall|j: int| 0 <= j < n.children@.len() ==> {
                            let c = #[trigger] n.children@[j] as int;
                            &&& 0 <= c < self.vec@.len()
                            &&& self.measure(c) < self.measure(within as int)
                            &&& is_expr_kind(self.vec@[c].t)
                        },
                        k <= cases@.len(),
                        a@ == a0 + case_hits(self, within as int, old as int, k as nat),
                        forall|x: int| 0 <= x < a@.len() ==> (#[trigger] a@[x] as int) < self.vec@.len()
                            && is_expr_kind(self.vec@[a@[x] as int].t),
                    decreases cases@.len() - k,
                {
                    let (_, e) = cases[k];
                    proof {
                        let kk = k as int;
                        assert(n.children@[2 * kk + 2] == e);
                    }
                    let more = self.rc_collect(e, old);
                    let ghost a1 = a@;
                    append_indices(&mut a, &more);
                    proof {
                        assert(case_hits(self, within as int, old as int, (k + 1) as nat) == case_hits(self, within as int, old as int, k as nat) + more@);
                        assert(a@ =~= a0 + case_hits(self, within as int, old as int, (k + 1) as nat));
                    }
                    k = k + 1;
                }
                a
            },
            _ => Vec::new(),
        }
    }

    /// Contracts the redex `rc.from` inside `within`: a copy of `rc.to` is added and every
    /// child reference to a node of `hits(within, rc.from)` is made to point to it (see
    /// `term_redirected`). Returns what `within` is now (the copy, if `within` itself was
    /// the redex).
    pub fn do_rc_subst(&mut self, within: usize, rc: &RCPair) -> (r: usize)
        requires
            old(self).wf(),
            within < old(self).vec@.len(),
            is_expr_kind(old(self).vec@[within as int].t),
            rc.from < old(self).vec@.len(),
            rc.ok(),
        ensures
            final(self).wf(),
            kinds_kept(old(self), final(self)),
            (r as int) < final(self).vec@.len(),
            is_expr_kind(final(self).vec@[r as int].t),
            final(self).root == old(self).root || (old(self).root < old(self).vec@.len() && final(self).root >= old(self).vec@.len()),
            forall|e: int| 0 <= e < old(self).vec@.len() ==> #[trigger] term(final(self), e) == term_redirected(
                old(self),
                e,
                hits(old(self), within as int, rc.from as int).to_set(),
                term(&rc.to, rc.to.root as int),
            ),
            term(final(self), r as int) == if hits(old(self), within as int, rc.from as int).contains(within) {
                term(&rc.to, rc.to.root as int)
            } else {
                term_redirected(old(self), within as int, hits(old(self), within as int, rc.from as int).to_set(), term(&rc.to, rc.to.root as int))
            },
    {
        let matched = within == rc.from || self.expr_eq(within, rc.from);
        let hits_v = self.rc_collect(within, rc.from);
        let mark = self.size();
        let ghost start = *self;
        let ghost hs = hits_v@.to_set();
        let new = self.append(&rc.to, rc.to.root);
        let ghost mid = *self;
        proof {
            assert forall|i: int| 0 <= i < mid.vec@.len() implies #[trigger] redirected_all(mid.vec@[i], self.vec@[i], Set::<usize>::empty(), new) by {}
            assert(Set::<usize>::empty() =~= hits_v@.subrange(0, 0).to_set());
        }
        let mut k: usize = 0;
        while k < hits_v.len()
            invariant
                self.wf(),
                mark == start.vec@.len(),
                mark <= new < self.vec@.len(),
                self.vec@.len() == mid.vec@.len(),
                mid.wf(),
                kinds_kept(&start, self),
                kinds_kept(&mid, self),
                extends(&start, &mid),
                is_expr_kind(self.vec@[new as int].t),
                closed_from(self, mark as nat),
                forall|x: int| 0 <= x < hits_v@.len() ==> (#[trigger] hits_v@[x] as int) < start.vec@.len()
                    && is_expr_kind(start.vec@[hits_v@[x] as int].t),
                self.root == start.root || (start.root < start.vec@.len() && self.root == new),
                k <= hits_v@.len(),
                forall|i: int| 0 <= i < mid.vec@.len() ==> #[trigger] redirected_all(mid.vec@[i], self.vec@[i], hits_v@.subrange(0, k as int).to_set(), new),
            decreases hits_v@.len() - k,
        {
            let h = hits_v[k];
            let ghost before = *self;
            let ghost s0 = hits_v@.subrange(0, k as int).to_set();
            self.replace_references_to_node(h, new, mark);
            proof {
                assert forall|i: int| 0 <= i < mid.vec@.len() implies #[trigger] self.vec@[i].t == mid.vec@[i].t by {
                    assert(redirected(before.vec@[i], self.vec@[i], h, new));
                    assert(redirected_all(mid.vec@[i], before.vec@[i], s0, new));
                }
                assert forall|i: int| 0 <= i < start.vec@.len() implies #[trigger] self.vec@[i].t == start.vec@[i].t by {
                    assert(mid.vec@[i] == start.vec@[i]);
                    assert(self.vec@[i].t == mid.vec@[i].t);
                }
                let kk = k as int;
                let sub0 = hits_v@.subrange(0, kk);
                let sub1 = hits_v@.subrange(0, kk + 1);
                let s1 = sub1.to_set();
                assert(s1 =~= s0.insert(h)) by {
                    assert forall|c: usize| s1.contains(c) <==> s0.insert(h).contains(c) by {
                        if s1.contains(c) {
                            let w = choose|w: int| 0 <= w < sub1.len() && #[trigger] sub1[w] == c;
                            if w < kk {
                                assert(sub0[w] == c);
                            }
                        }
                        if s0.contains(c) {
                            let w = choose|w: int| 0 <= w < sub0.len() && #[trigger] sub0[w] == c;
                            assert(sub1[w] == c);
                        }
                        if c == h {
                            assert(sub1[kk] == c);
                        }
                    }
                }
                assert forall|i: int| 0 <= i < mid.vec@.len() implies #[trigger] redirected_all(mid.vec@[i], self.vec@[i], s1, new) by {
                    assert(redirected(before.vec@[i], self.vec@[i], h, new));
                    assert(redirected_all(mid.vec@[i], before.vec@[i], s0, new));
                    assert forall|j: int| 0 <= j < mid.vec@[i].children@.len() implies #[trigger] self.vec@[i].children@[j] == (if s1.contains(mid.vec@[i].children@[j])
                        && !(mid.vec@[i].t == ASTNodeType::Assignment && j == 0) { new } else { mid.vec@[i].children@[j] }) by {
                        assert(before.vec@[i].children@[j] == (if s0.contains(mid.vec@[i].children@[j])
                            && !(mid.vec@[i].t == ASTNodeType::Assignment && j == 0) { new } else { mid.vec@[i].children@[j] }));
                    }
                }
            }
            k = k + 1;
        }
        proof {
            assert(hits_v@.subrange(0, hits_v@.len() as int) =~= hits_v@);
            assert forall|c: usize| hs.contains(c) implies (c as int) < mark by {
                let w = choose|w: int| 0 <= w < hits_v@.len() && #[trigger] hits_v@[w] == c;
            }
            assert forall|i: int, j: int| 0 <= i < mark && 0 <= j < mid.vec@[i].children@.len() implies #[trigger] mid.vec@[i].children@[j] < mark by {
                start.lemma_node(i);
                assert(mid.vec@[i] == start.vec@[i]);
            }
            assert(closed_from(&mid, mark as nat));
            assert forall|e: int| 0 <= e < start.vec@.len() implies #[trigger] term(self, e) == term_redirected(&start, e, hs, term(&rc.to, rc.to.root as int)) by {
                lemma_redirect_term(&mid, self, hs, new, mark as nat, e);
                lemma_redirected_kept(&start, &mid, e, hs, term(&rc.to, rc.to.root as int));
            }
            lemma_redirect_term_above(&mid, self, hs, new, mark as nat, new as int);
        }
        if matched {
            proof {
                assert(hits_v@ == seq![within]);
                assert(hits_v@[0] == within);
            }
            new
        } else {
            proof {
                lemma_hits_below(&start, within as int, rc.from as int);
                if hits_v@.contains(within) {
                    let w = choose|w: int| 0 <= w < hits_v@.len() && hits_v@[w] == within;
                    assert(hits_v@[w] as int != within);
                }
            }
            within
        }
    }

    /// Contracts, inside `within`, every redex of `rcs` written like the redex of `rc0`.
    pub fn do_rc_subst_and_identical_rcs(&mut self, within: usize, rc0: &RCPair, rcs: &Vec<RCPair>)
        requires
            old(self).wf(),
            within < old(self).vec@.len(),
            is_expr_kind(old(self).vec@[within as int].t),
            rc0.from < old(self).vec@.len(),
            forall|k: int| 0 <= k < rcs@.len() ==> (#[trigger] rcs@[k]).ok() && rcs@[k].from < old(self).vec@.len(),
        ensures
            final(self).wf(),
            kinds_kept(old(self), final(self)),
            exists|ts: Seq<AST>|
                ts.len() == rcs@.len() + 1 && ts[0] == *old(self) && ts[rcs@.len() as int] == *final(self)
                && forall|k: int| 0 <= k < rcs@.len() ==> identical_step(#[trigger] ts[k], ts[k + 1], within as int, rc0.from as int, rcs@[k]),
    {
        let mut refs: Vec<&RCPair> = Vec::new();
        let mut k: usize = 0;
        while k < rcs.len()
            invariant
                k <= rcs@.len(),
                refs@.len() == k,
                forall|j: int| 0 <= j < k ==> *refs@[j] == rcs@[j],
            decreases rcs@.len() - k,
        {
            refs.push(&rcs[k]);
            k = k + 1;
        }
        let ghost start = *self;
        self.do_rc_subst_and_identical_rcs_borrowed(within, rc0, &refs);
        proof {
            let ts = choose|ts: Seq<AST>|
                ts.len() == refs@.len() + 1 && ts[0] == start && ts[refs@.len() as int] == *self
                && forall|k: int| 0 <= k < refs@.len() ==> identical_step(#[trigger] ts[k], ts[k + 1], within as int, rc0.from as int, *refs@[k]);
            assert forall|k: int| 0 <= k < rcs@.len() implies identical_step(#[trigger] ts[k], ts[k + 1], within as int, rc0.from as int, rcs@[k]) by {
                assert(*refs@[k] == rcs@[k]);
            }
        }
    }

    /// `do_rc_subst_and_identical_rcs` on borrowed pairs.
    pub fn do_rc_subst_and_identical_rcs_borrowed(&mut self, within: usize, rc0: &RCPair, rcs: &Vec<&RCPair>)
        requires
            old(self).wf(),
            within < old(self).vec@.len(),
            is_expr_kind(old(self).vec@[within as int].t),
            rc0.from < old(self).vec@.len(),
            forall|k: int| 0 <= k < rcs@.len() ==> (#[trigger] rcs@[k]).ok() && rcs@[k].from < old(self).vec@.len(),
        ensures
            final(self).wf(),
            kinds_kept(old(self), final(self)),
            exists|ts: Seq<AST>|
                ts.len() == rcs@.len() + 1 && ts[0] == *old(self) && ts[rcs@.len() as int] == *final(self)
                && forall|k: int| 0 <= k < rcs@.len() ==> identical_step(#[trigger] ts[k], ts[k + 1], within as int, rc0.from as int, *rcs@[k]),
    {
        let ghost start = *self;
        let ghost mut ts: Seq<AST> = seq![*self];
        let mut k: usize = 0;
        while k < rcs.len()
            invariant
                ts.len() == k + 1,
                ts[0] == start,
                ts[k as int] == *self,
                forall|kk: int| 0 <= kk < k ==> identical_step(#[trigger] ts[kk], ts[kk + 1], within as int, rc0.from as int, *rcs@[kk]),
                self.wf(),
                kinds_kept(&start, self),
                within < start.vec@.len(),
                is_expr_kind(start.vec@[within as int].t),
                rc0.from < start.vec@.len(),
                forall|j: int| 0 <= j < rcs@.len() ==> (#[trigger] rcs@[j]).ok() && rcs@[j].from < start.vec@.len(),
                k <= rcs@.len(),
            decreases rcs@.len() - k,
        {
            let rc = rcs[k];
            let ghost before = *self;
            if self.expr_eq(rc0.from, rc.from) {
                self.do_rc_subst(within, rc);
                proof {
                    assert(kinds_kept(&before, self));
                    assert(kinds_kept(&start, &before));
                    assert forall|i: int| 0 <= i < start.vec@.len() implies #[trigger] self.vec@[i].t == start.vec@[i].t by {
                        assert(before.vec@[i].t == start.vec@[i].t);
                        assert(self.vec@[i].t == before.vec@[i].t);
                    }
                    assert(kinds_kept(&start, self));
                }
            }
            proof {
                assert(identical_step(before, *self, within as int, rc0.from as int, *rcs@[k as int]));
                let old_ts = ts;
                ts = ts.push(*self);
                assert forall|kk: int| 0 <= kk < k + 1 implies identical_step(#[trigger] ts[kk], ts[kk + 1], within as int, rc0.from as int, *rcs@[kk]) by {
                    if kk < k {
                        assert(ts[kk] == old_ts[kk] && ts[kk + 1] == old_ts[kk + 1]);
                    }
                }
            }
            k = k + 1;
        }
        proof {
            assert(ts.len() == rcs@.len() + 1 && ts[0] == start && ts[rcs@.len() as int] == *self);
        }
    }

    /// The redex of `rcs` met first when going down from `expr` through the functions and
    /// then the arguments of applications (and the two sides of pairs). Where two redexes
    /// of `rcs` are the same node, the later one is taken.
    pub fn get_laziest_rc(&self, expr: usize, rcs: &Vec<RCPair>) -> (r: Option<RCPair>)
        requires
            self.wf(),
            expr < self.vec@.len(),
            forall|k: int| 0 <= k < rcs@.len() ==> (#[trigger] rcs@[k]).ok(),
        ensures
            r matches Some(rc) ==> rc.ok() && Some(rc.from) == laziest_from(self, expr as int, rc_froms(rcs@)),
            r is None <==> laziest_from(self, expr as int, rc_froms(rcs@)) is None,
        decreases self.measure(expr as int),
    {
        let mut k = rcs.len();
        while k > 0
            invariant
                self.wf(),
                expr < self.vec@.len(),
                k <= rcs@.len(),
                forall|j: int| k <= j < rcs@.len() ==> #[trigger] rcs@[j].from != expr,
                forall|j: int| 0 <= j < rcs@.len() ==> (#[trigger] rcs@[j]).ok(),
            decreases k,
        {
            if rcs[k - 1].from == expr {
                proof { assert(rc_froms(rcs@)[k - 1] == expr); }
                return Some(rcs[k - 1].copy());
            }
            k = k - 1;
        }
        proof {
            self.lemma_node(expr as int);
            assert(!rc_froms(rcs@).contains(expr)) by {
                if rc_froms(rcs@).contains(expr) {
                    let j = choose|j: int| 0 <= j < rc_froms(rcs@).len() && rc_froms(rcs@)[j] == expr;
                    assert(rcs@[j].from == expr);
                }
            }
        }
        let t = self.vec[expr].t;
        if t == ASTNodeType::Application || t == ASTNodeType::Pair {
            let f = self.vec[expr].children[0];
            let x = self.vec[expr].children[1];
            let left = self.get_laziest_rc(f, rcs);
            if left.is_some() {
                return left;
            }
            let right = self.get_laziest_rc(x, rcs);
            match right {
                Some(rc) => Some(rc),
                None => None,
            }
        } else {
            None
        }
    }

    /// `get_laziest_rc` on borrowed pairs.
    pub fn get_laziest_rc_borrowed(&self, expr: usize, rcs: &Vec<&RCPair>) -> (r: Option<RCPair>)
        requires
            self.wf(),
            expr < self.vec@.len(),
            forall|k: int| 0 <= k < rcs@.len() ==> (#[trigger] rcs@[k]).ok(),
        ensures
            r matches Some(rc) ==> rc.ok() && Some(rc.from) == laziest_from(self, expr as int, rc_ref_froms(rcs@)),
            r is None <==> laziest_from(self, expr as int, rc_ref_froms(rcs@)) is None,
    {
        let mut copies: Vec<RCPair> = Vec::new();
        let mut k: usize = 0;
        while k < rcs.len()
            invariant
                k <= rcs@.len(),
                copies@.len() == k,
                forall|j: int| 0 <= j < rcs@.len() ==> (#[trigger] rcs@[j]).ok(),
                forall|j: int| 0 <= j < k ==> (#[trigger] copies@[j]).ok() && copies@[j].from == rcs@[j].from,
            decreases rcs@.len() - k,
        {
            copies.push(rcs[k].copy());
            k = k + 1;
        }
        assert(rc_froms(copies@) =~= rc_ref_froms(rcs@));
        self.get_laziest_rc(expr, &copies)
    }
}

/// The nodes the borrowed redexes of `rcs` are at.
pub open spec fn rc_ref_froms(rcs: Seq<&RCPair>) -> Seq<usize> {
    Seq::new(rcs.len(), |k: int| rcs[k].from)
}

/// The nodes the redexes of `rcs` are at.
pub open spec fn rc_froms(rcs: Seq<RCPair>) -> Seq<usize> {
    Seq::new(rcs.len(), |k: int| rcs[k].from)
}

/// The redex of `froms` met first when going down from `e`, trying the function (the
/// first side) before the argument (the second side).
pub open spec fn laziest_from(ast: &AST, e: int, froms: Seq<usize>) -> Option<usize>
    decreases ast.measure(e),
{
    if !(ast.wf() && ast.valid(e)) {
        None
    } else if froms.contains(e as usize) {
        Some(e as usize)
    } else {
        proof { ast.lemma_node(e); }
        let t = ast.vec@[e].t;
        if t == ASTNodeType::Application || t == ASTNodeType::Pair {
            match laziest_from(ast, ast.child(e, 0) as int, froms) {
                Some(x) => Some(x),
                None => laziest_from(ast, ast.child(e, 1) as int, froms),
            }
        } else {
            None
        }
    }
}

/// Two redex/contraction pairs that say the same: the redex, what it contracts to, and
/// the messages.
pub open spec fn same_rc(a: RCPair, b: RCPair) -> bool {
    &&& a.from == b.from
    &&& term(&a.to, a.to.root as int) == term(&b.to, b.to.root as int)
    &&& a.msg_after@ == b.msg_after@
    &&& a.msg_before@ == b.msg_before@
}

impl RCPair {
    /// A copy of the pair (its contraction copied afresh).
    pub fn copy(&self) -> (r: RCPair)
        requires
            self.ok(),
        ensures
            r.ok(),
            same_rc(r, *self),
    {
        let to = self.to.clone_node(self.to.root);
        RCPair { from: self.from, to, msg_after: self.msg_after.clone(), msg_before: self.msg_before.clone() }
    }
}

} // verus!
