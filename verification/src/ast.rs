//! The syntax tree: nodes stored in one vector, each referring to its children by index.
use vstd::prelude::*;

use crate::text::{char_is_uppercase, lit, str_eq, unicode_uppercase};
use crate::token::{Token, TokenType};
use crate::types::{Primitive, Type, TypeError, TypeV};

verus! {

#[derive(Clone, Copy, Debug, PartialEq, Eq, Structural)]
pub enum ASTNodeType {
    Identifier,
    Literal,
    Pair,
    Application,
    Assignment,
    Abstraction,
    Module,
    Match,
}

#[derive(Clone, Debug)]
pub struct ASTNode {
    pub t: ASTNodeType,
    pub info: Option<Token>,
    pub children: Vec<usize>,
    pub line: usize,
    pub col: usize,
    pub type_assignment: Option<Type>,
    pub wait_for_args: bool,
    pub fancy_assign_abst_syntax: bool,
    pub dollar_app: bool,
    pub is_silent: bool,
}

/// A syntax tree. `rank` orders the nodes so that every node but a module comes after
/// its children; `bound` is above every rank. Both exist for the proofs only.
#[derive(Clone)]
pub struct AST {
    pub vec: Vec<ASTNode>,
    pub root: usize,
    pub rank: Ghost<Seq<nat>>,
    pub bound: Ghost<nat>,
}

/// A redex (`from`, in the tree it was found in) with what it contracts to, and
/// descriptions of the step.
#[derive(Clone)]
pub struct RCPair {
    pub from: usize,
    pub to: AST,
    pub msg_after: String,
    pub msg_before: String,
}

impl RCPair {
    /// The contraction is a well-formed tree rooted at an expression.
    pub open spec fn ok(&self) -> bool {
        &&& self.to.wf()
        &&& self.to.root < self.to.vec@.len()
        &&& is_expr_kind(self.to.vec@[self.to.root as int].t)
    }
}

/// The node kinds that stand for expressions.
pub open spec fn is_expr_kind(t: ASTNodeType) -> bool {
    t != ASTNodeType::Assignment && t != ASTNodeType::Module
}

/// The number of children and the token that a node of each kind has.
pub open spec fn shape_ok(n: ASTNode) -> bool {
    &&& (n.t == ASTNodeType::Identifier || n.t == ASTNodeType::Literal) ==> (n.info is Some
        && n.children@.len() == 0 && n.info->0.value@.len() > 0)
    &&& (n.t == ASTNodeType::Pair || n.t == ASTNodeType::Application || n.t
        == ASTNodeType::Abstraction || n.t == ASTNodeType::Assignment) ==> n.children@.len() == 2
    &&& n.t == ASTNodeType::Match ==> (n.children@.len() >= 1 && n.children@.len() % 2 == 1)
}

/// The largest rank among the first `k` children, or 0.
pub open spec fn max_rank(rank: Seq<nat>, cs: Seq<usize>, k: nat) -> nat
    decreases k,
{
    if k == 0 || k > cs.len() {
        0
    } else {
        let m = max_rank(rank, cs, (k - 1) as nat);
        let r = rank[cs[k - 1] as int];
        if r > m {
            r
        } else {
            m
        }
    }
}

pub proof fn lemma_max_rank(rank: Seq<nat>, cs: Seq<usize>, k: nat)
    requires
        k <= cs.len(),
    ensures
        forall|j: int| 0 <= j < k ==> rank[cs[j] as int] <= max_rank(rank, cs, k),
    decreases k,
{
    if k > 0 {
        lemma_max_rank(rank, cs, (k - 1) as nat);
    }
}

/// The conditions on a child `c` of node `i`.
pub open spec fn child_ok_at(v: Seq<ASTNode>, rank: Seq<nat>, i: int, c: usize) -> bool {
    &&& (c as int) < v.len()
    &&& v[c as int].t != ASTNodeType::Module
    &&& v[i].t != ASTNodeType::Module ==> (rank[c as int] < rank[i] && is_expr_kind(v[c as int].t))
    &&& v[i].t == ASTNodeType::Module ==> v[c as int].t == ASTNodeType::Assignment
}

pub open spec fn node_ok_at(v: Seq<ASTNode>, rank: Seq<nat>, bound: nat, i: int) -> bool {
    &&& rank[i] < bound
    &&& shape_ok(v[i])
    &&& v[i].t == ASTNodeType::Assignment ==> v[v[i].children@[0] as int].t == ASTNodeType::Identifier
    &&& forall|j: int| 0 <= j < v[i].children@.len() ==> #[trigger] child_ok_at(v, rank, i, v[i].children@[j])
}

pub open spec fn tree_wf(v: Seq<ASTNode>, rank: Seq<nat>, bound: nat) -> bool {
    &&& rank.len() == v.len()
    &&& forall|i: int| 0 <= i < v.len() ==> #[trigger] node_ok_at(v, rank, bound, i)
}

impl AST {
    pub open spec fn len(&self) -> nat {
        self.vec@.len()
    }

    pub open spec fn node(&self, i: int) -> ASTNode {
        self.vec@[i]
    }

    pub open spec fn kind(&self, i: int) -> ASTNodeType {
        self.vec@[i].t
    }

    pub open spec fn child(&self, i: int, j: int) -> usize {
        self.vec@[i].children@[j]
    }

    pub open spec fn valid(&self, i: int) -> bool {
        0 <= i < self.vec@.len()
    }

    /// The conditions on the `j`-th child of node `i`.
    #[verifier::inline]
    pub open spec fn child_ok(&self, i: int, c: usize) -> bool {
        child_ok_at(self.vec@, self.rank@, i, c)
    }

    #[verifier::inline]
    pub open spec fn node_ok(&self, i: int) -> bool {
        node_ok_at(self.vec@, self.rank@, self.bound@, i)
    }

    /// Well-formedness: every node has the shape of its kind and children that exist.
    #[verifier::inline]
    pub open spec fn wf(&self) -> bool {
        tree_wf(self.vec@, self.rank@, self.bound@)
    }

    /// What decreases from a node to its children.
    pub open spec fn measure(&self, i: int) -> nat {
        if self.vec@[i].t == ASTNodeType::Module {
            self.bound@
        } else {
            self.rank@[i]
        }
    }

    /// Facts about a node of a well-formed tree.
    pub proof fn lemma_node(&self, i: int)
        requires
            self.wf(),
            self.valid(i),
        ensures
            self.node_ok(i),
            forall|j: int|
                0 <= j < self.vec@[i].children@.len() ==> {
                    let c = #[trigger] self.vec@[i].children@[j] as int;
                    &&& 0 <= c < self.vec@.len()
                    &&& self.measure(c) < self.measure(i)
                    &&& self.vec@[c].t != ASTNodeType::Module
                    &&& self.vec@[i].t != ASTNodeType::Module ==> is_expr_kind(self.vec@[c].t)
                },
    {
        assert(self.node_ok(i));
        assert forall|j: int| 0 <= j < self.vec@[i].children@.len() implies {
            let c = #[trigger] self.vec@[i].children@[j] as int;
            &&& 0 <= c < self.vec@.len()
            &&& self.measure(c) < self.measure(i)
            &&& self.vec@[c].t != ASTNodeType::Module
            &&& self.vec@[i].t != ASTNodeType::Module ==> is_expr_kind(self.vec@[c].t)
        } by {
            let c = self.vec@[i].children@[j];
            assert(self.child_ok(i, c));
            assert(self.node_ok(c as int));
        }
    }

    /// The name an identifier or literal node carries.
    pub open spec fn value_of(&self, i: int) -> Seq<char> {
        self.vec@[i].info->0.value@
    }

    /// The name of the assignment node `a`.
    pub open spec fn assign_name(&self, a: int) -> Seq<char> {
        self.value_of(self.child(a, 0) as int)
    }

    /// The assignments of module `m`.
    pub open spec fn module_assigns(&self, m: int) -> Seq<usize> {
        self.vec@[m].children@
    }

    pub fn new() -> (r: Self)
        ensures
            r.wf(),
            r.vec@.len() == 0,
            r.root == 0,
    {
        AST { vec: Vec::new(), root: 0, rank: Ghost(Seq::empty()), bound: Ghost(0) }
    }

    pub fn get(&self, i: usize) -> (r: &ASTNode)
        requires
            i < self.vec@.len(),
        ensures
            *r == self.vec@[i as int],
    {
        &self.vec[i]
    }

    /// The number of nodes.
    pub fn size(&self) -> (r: usize)
        ensures
            r == self.vec@.len(),
    {
        self.vec.len()
    }

    /// Adds a node whose children are already in the tree; returns its index.
    pub fn add(&mut self, n: ASTNode) -> (r: usize)
        requires
            old(self).wf(),
            shape_ok(n),
            forall|j: int|
                0 <= j < n.children@.len() ==> {
                    let c = #[trigger] n.children@[j] as int;
                    &&& 0 <= c < old(self).vec@.len()
                    &&& old(self).vec@[c].t != ASTNodeType::Module
                    &&& n.t == ASTNodeType::Module ==> old(self).vec@[c].t
                        == ASTNodeType::Assignment
                    &&& n.t != ASTNodeType::Module ==> is_expr_kind(old(self).vec@[c].t)
                },
            n.t == ASTNodeType::Assignment ==> old(self).vec@[n.children@[0] as int].t
                == ASTNodeType::Identifier,
        ensures
            final(self).wf(),
            r == old(self).vec@.len(),
            final(self).vec@ == old(self).vec@.push(n),
            final(self).root == old(self).root,
            forall|i: int| 0 <= i < old(self).vec@.len() ==> final(self).rank@[i] == old(self).rank@[i],
    {
        let ghost cs = n.children@;
        let ghost m = max_rank(self.rank@, cs, cs.len());
        proof {
            lemma_max_rank(self.rank@, cs, cs.len());
        }
        let ghost new_rank: nat = if n.t == ASTNodeType::Module { 0 } else { m + 1 };
        let ghost old_ast = *self;
        self.vec.push(n);
        self.rank = Ghost(self.rank@.push(new_rank));
        self.bound = Ghost(if new_rank + 1 > self.bound@ { new_rank + 1 } else { self.bound@ });
        proof {
            assert forall|i: int| 0 <= i < self.vec@.len() implies #[trigger] self.node_ok(i) by {
                if i < old_ast.vec@.len() {
                    assert(old_ast.node_ok(i));
                    assert(self.vec@[i] == old_ast.vec@[i]);
                    if self.vec@[i].t == ASTNodeType::Assignment {
                        assert(old_ast.child_ok(i, old_ast.vec@[i].children@[0]));
                    }
                    assert forall|j: int| 0 <= j < self.vec@[i].children@.len() implies #[trigger] self.child_ok(i, self.vec@[i].children@[j]) by {
                        assert(old_ast.child_ok(i, old_ast.vec@[i].children@[j]));
                    }
                } else {
                    assert(i == old_ast.vec@.len());
                    assert(self.vec@[i] == n);
                    assert(self.rank@[i] == new_rank);
                    assert forall|j: int| 0 <= j < self.vec@[i].children@.len() implies #[trigger] self.child_ok(i, self.vec@[i].children@[j]) by {
                        let c = cs[j] as int;
                        assert(old_ast.node_ok(c));
                        assert(self.rank@[c] == old_ast.rank@[c]);
                        assert(old_ast.rank@[cs[j] as int] <= m);
                    }
                }
            }
        }
        self.vec.len() - 1
    }

    pub fn single_node(n: ASTNode) -> (r: Self)
        requires
            shape_ok(n),
            n.children@.len() == 0,
        ensures
            r.wf(),
            r.vec@ == seq![n],
            r.root == 0,
    {
        let mut ast = Self::new();
        let id = ast.add(n);
        ast.root = id;
        assert(ast.vec@ =~= seq![n]);
        ast
    }

    /// Marks an abstraction as one that only reduces once its arguments are values.
    pub fn wait_for_args(&mut self, node: usize)
        requires
            old(self).wf(),
            node < old(self).vec@.len(),
        ensures
            final(self).wf(),
            final(self).vec@.len() == old(self).vec@.len(),
            final(self).vec@[node as int] == (ASTNode { wait_for_args: true, ..old(self).vec@[node as int] }),
            forall|i: int| 0 <= i < old(self).vec@.len() && i != node ==> final(self).vec@[i] == old(self).vec@[i],
            final(self).rank == old(self).rank,
            final(self).root == old(self).root,
    {
        let ghost old_ast = *self;
        self.vec[node].wait_for_args = true;
        proof { self.lemma_same_shape(old_ast); }
    }

    /// Marks an abstraction as written with variables before `=` (`f x = ..`).
    pub fn fancy_assign_abst_syntax(&mut self, node: usize)
        requires
            old(self).wf(),
            node < old(self).vec@.len(),
        ensures
            final(self).wf(),
            final(self).vec@.len() == old(self).vec@.len(),
            final(self).vec@[node as int] == (ASTNode { fancy_assign_abst_syntax: true, ..old(self).vec@[node as int] }),
            forall|i: int| 0 <= i < old(self).vec@.len() && i != node ==> final(self).vec@[i] == old(self).vec@[i],
            final(self).rank == old(self).rank,
            final(self).root == old(self).root,
    {
        let ghost old_ast = *self;
        self.vec[node].fancy_assign_abst_syntax = true;
        proof { self.lemma_same_shape(old_ast); }
    }

    /// Gives a node a type annotation.
    pub fn set_type(&mut self, node: usize, t: Type)
        requires
            old(self).wf(),
            node < old(self).vec@.len(),
        ensures
            final(self).wf(),
            final(self).vec@.len() == old(self).vec@.len(),
            final(self).vec@[node as int] == (ASTNode { type_assignment: Some(t), ..old(self).vec@[node as int] }),
            forall|i: int| 0 <= i < old(self).vec@.len() && i != node ==> final(self).vec@[i] == old(self).vec@[i],
            final(self).rank == old(self).rank,
            final(self).root == old(self).root,
    {
        let ghost old_ast = *self;
        self.vec[node].type_assignment = Some(t);
        proof { self.lemma_same_shape(old_ast); }
    }

    /// Gives an assignment its type.
    pub fn set_assignment_type(&mut self, assignment: usize, type_: Type)
        requires
            old(self).wf(),
            assignment < old(self).vec@.len(),
        ensures
            final(self).wf(),
            final(self).vec@.len() == old(self).vec@.len(),
            final(self).vec@[assignment as int] == (ASTNode { type_assignment: Some(type_), ..old(self).vec@[assignment as int] }),
            forall|i: int| 0 <= i < old(self).vec@.len() && i != assignment ==> final(self).vec@[i] == old(self).vec@[i],
            final(self).rank == old(self).rank,
            final(self).root == old(self).root,
    {
        self.set_type(assignment, type_);
    }

    /// A tree whose nodes differ from a well-formed one only in fields other than kind,
    /// token and children is well-formed.
    pub proof fn lemma_same_shape(&self, old_ast: AST)
        requires
            old_ast.wf(),
            self.vec@.len() == old_ast.vec@.len(),
            self.rank == old_ast.rank,
            self.bound == old_ast.bound,
            forall|i: int| 0 <= i < self.vec@.len() ==> #[trigger] self.vec@[i].t == old_ast.vec@[i].t
                && self.vec@[i].info == old_ast.vec@[i].info && self.vec@[i].children == old_ast.vec@[i].children,
        ensures
            self.wf(),
    {
        assert forall|k: int| 0 <= k < self.vec@.len() implies #[trigger] self.node_ok(k) by {
            assert(old_ast.node_ok(k));
            assert(self.vec@[k].t == old_ast.vec@[k].t);
            assert forall|j: int| 0 <= j < self.vec@[k].children@.len() implies #[trigger] self.child_ok(k, self.vec@[k].children@[j]) by {
                assert(old_ast.child_ok(k, old_ast.vec@[k].children@[j]));
                let c = self.vec@[k].children@[j] as int;
                assert(self.vec@[c].t == old_ast.vec@[c].t);
            }
            if self.vec@[k].t == ASTNodeType::Assignment {
                assert(old_ast.child_ok(k, old_ast.vec@[k].children@[0]));
                let c = self.child(k, 0) as int;
                assert(self.vec@[c].t == old_ast.vec@[c].t);
            }
        }
    }

    pub fn add_id(&mut self, tk: Token, line: usize, col: usize) -> (r: usize)
        requires
            old(self).wf(),
            tk.value@.len() > 0,
        ensures
            final(self).wf(),
            r == old(self).vec@.len(),
            final(self).vec@ == old(self).vec@.push(final(self).vec@[r as int]),
            is_node(final(self).vec@[r as int], ASTNodeType::Identifier, Some(tk), seq![], line, col),
            final(self).root == old(self).root,
            forall|i: int| 0 <= i < old(self).vec@.len() ==> final(self).rank@[i] == old(self).rank@[i],
    {
        self.add(ASTNode::new_id(tk, line, col))
    }

    pub fn add_typed_id(&mut self, tk: Token, line: usize, col: usize, assigned_type: Type) -> (r: usize)
        requires
            old(self).wf(),
            tk.value@.len() > 0,
        ensures
            final(self).wf(),
            r == old(self).vec@.len(),
            final(self).vec@ == old(self).vec@.push(final(self).vec@[r as int]),
            final(self).vec@[r as int].t == ASTNodeType::Identifier,
            final(self).vec@[r as int].info == Some(tk),
            final(self).vec@[r as int].type_assignment == Some(assigned_type),
            final(self).root == old(self).root,
    {
        let mut n = ASTNode::new_id(tk, line, col);
        n.type_assignment = Some(assigned_type);
        self.add(n)
    }

    pub fn add_lit(&mut self, tk: Token, line: usize, col: usize) -> (r: usize)
        requires
            old(self).wf(),
            tk.value@.len() > 0,
        ensures
            final(self).wf(),
            r == old(self).vec@.len(),
            final(self).vec@ == old(self).vec@.push(final(self).vec@[r as int]),
            is_node(final(self).vec@[r as int], ASTNodeType::Literal, Some(tk), seq![], line, col),
            final(self).root == old(self).root,
            forall|i: int| 0 <= i < old(self).vec@.len() ==> final(self).rank@[i] == old(self).rank@[i],
    {
        self.add(ASTNode::new_lit(tk, line, col))
    }

    pub fn add_app(&mut self, f: usize, x: usize, line: usize, col: usize, dollar_app: bool) -> (r: usize)
        requires
            old(self).wf(),
            f < old(self).vec@.len(),
            x < old(self).vec@.len(),
            is_expr_kind(old(self).vec@[f as int].t),
            is_expr_kind(old(self).vec@[x as int].t),
        ensures
            final(self).wf(),
            r == old(self).vec@.len(),
            final(self).vec@ == old(self).vec@.push(final(self).vec@[r as int]),
            is_node(final(self).vec@[r as int], ASTNodeType::Application, None, seq![f, x], line, col),
            final(self).vec@[r as int].dollar_app == dollar_app,
            final(self).root == old(self).root,
            forall|i: int| 0 <= i < old(self).vec@.len() ==> final(self).rank@[i] == old(self).rank@[i],
    {
        self.add(ASTNode::new_two(ASTNodeType::Application, f, x, line, col, dollar_app))
    }

    pub fn add_pair(&mut self, a: usize, b: usize, line: usize, col: usize) -> (r: usize)
        requires
            old(self).wf(),
            a < old(self).vec@.len(),
            b < old(self).vec@.len(),
            is_expr_kind(old(self).vec@[a as int].t),
            is_expr_kind(old(self).vec@[b as int].t),
        ensures
            final(self).wf(),
            r == old(self).vec@.len(),
            final(self).vec@ == old(self).vec@.push(final(self).vec@[r as int]),
            is_node(final(self).vec@[r as int], ASTNodeType::Pair, None, seq![a, b], line, col),
            final(self).vec@[r as int].dollar_app == false,
            final(self).root == old(self).root,
            forall|i: int| 0 <= i < old(self).vec@.len() ==> final(self).rank@[i] == old(self).rank@[i],
    {
        self.add(ASTNode::new_two(ASTNodeType::Pair, a, b, line, col, false))
    }

    pub fn add_abstraction(&mut self, id: usize, exp: usize, line: usize, col: usize) -> (r: usize)
        requires
            old(self).wf(),
            id < old(self).vec@.len(),
            exp < old(self).vec@.len(),
            is_expr_kind(old(self).vec@[id as int].t),
            is_expr_kind(old(self).vec@[exp as int].t),
        ensures
            final(self).wf(),
            r == old(self).vec@.len(),
            final(self).vec@ == old(self).vec@.push(final(self).vec@[r as int]),
            is_node(final(self).vec@[r as int], ASTNodeType::Abstraction, None, seq![id, exp], line, col),
            final(self).vec@[r as int].dollar_app == false,
            final(self).root == old(self).root,
            forall|i: int| 0 <= i < old(self).vec@.len() ==> final(self).rank@[i] == old(self).rank@[i],
    {
        self.add(ASTNode::new_two(ASTNodeType::Abstraction, id, exp, line, col, false))
    }

    pub fn add_assignment(
        &mut self,
        id: usize,
        exp: usize,
        line: usize,
        col: usize,
        t: Option<Type>,
        is_silent: bool,
    ) -> (r: usize)
        requires
            old(self).wf(),
            id < old(self).vec@.len(),
            exp < old(self).vec@.len(),
            old(self).vec@[id as int].t == ASTNodeType::Identifier,
            is_expr_kind(old(self).vec@[exp as int].t),
        ensures
            final(self).wf(),
            r == old(self).vec@.len(),
            final(self).vec@ == old(self).vec@.push(final(self).vec@[r as int]),
            final(self).vec@[r as int].t == ASTNodeType::Assignment,
            final(self).vec@[r as int].children@ == seq![id, exp],
            final(self).vec@[r as int].type_assignment == t,
            final(self).vec@[r as int].is_silent == is_silent,
            final(self).vec@[r as int].line == line,
            final(self).vec@[r as int].col == col,
            final(self).root == old(self).root,
            forall|i: int| 0 <= i < old(self).vec@.len() ==> final(self).rank@[i] == old(self).rank@[i],
    {
        let mut n = ASTNode::new_two(ASTNodeType::Assignment, id, exp, line, col, false);
        n.type_assignment = t;
        n.is_silent = is_silent;
        self.add(n)
    }

    pub fn add_match(&mut self, cases: Vec<usize>, line: usize, col: usize) -> (r: usize)
        requires
            old(self).wf(),
            cases@.len() >= 1,
            cases@.len() % 2 == 1,
            forall|j: int| 0 <= j < cases@.len() ==> (#[trigger] cases@[j] as int) < old(self).vec@.len()
                && is_expr_kind(old(self).vec@[cases@[j] as int].t),
        ensures
            final(self).wf(),
            r == old(self).vec@.len(),
            final(self).vec@ == old(self).vec@.push(final(self).vec@[r as int]),
            is_node(final(self).vec@[r as int], ASTNodeType::Match, None, cases@, line, col),
            final(self).root == old(self).root,
            forall|i: int| 0 <= i < old(self).vec@.len() ==> final(self).rank@[i] == old(self).rank@[i],
    {
        self.add(ASTNode::new_many(ASTNodeType::Match, cases, line, col))
    }

    pub fn add_module(&mut self, assigns: Vec<usize>, line: usize, col: usize) -> (r: usize)
        requires
            old(self).wf(),
            forall|j: int| 0 <= j < assigns@.len() ==> (#[trigger] assigns@[j] as int) < old(self).vec@.len()
                && old(self).vec@[assigns@[j] as int].t == ASTNodeType::Assignment,
        ensures
            final(self).wf(),
            r == old(self).vec@.len(),
            final(self).vec@ == old(self).vec@.push(final(self).vec@[r as int]),
            is_node(final(self).vec@[r as int], ASTNodeType::Module, None, assigns@, line, col),
            final(self).root == old(self).root,
            forall|i: int| 0 <= i < old(self).vec@.len() ==> final(self).rank@[i] == old(self).rank@[i],
    {
        self.add(ASTNode::new_many(ASTNodeType::Module, assigns, line, col))
    }

    /// Appends an assignment to a module.
    pub fn add_to_module(&mut self, module: usize, assign: usize)
        requires
            old(self).wf(),
            module < old(self).vec@.len(),
            assign < old(self).vec@.len(),
            old(self).vec@[module as int].t == ASTNodeType::Module,
            old(self).vec@[assign as int].t == ASTNodeType::Assignment,
        ensures
            final(self).wf(),
            final(self).vec@.len() == old(self).vec@.len(),
            final(self).vec@[module as int].children@ == old(self).vec@[module as int].children@.push(assign),
            final(self).vec@[module as int].t == ASTNodeType::Module,
            forall|i: int| 0 <= i < old(self).vec@.len() && i != module ==> final(self).vec@[i] == old(self).vec@[i],
            final(self).rank == old(self).rank,
            final(self).root == old(self).root,
    {
        let ghost old_ast = *self;
        self.vec[module].children.push(assign);
        proof {
            assert forall|k: int| 0 <= k < self.vec@.len() implies #[trigger] self.node_ok(k) by {
                assert(old_ast.node_ok(k));
                if k == module {
                    assert forall|j: int| 0 <= j < self.vec@[k].children@.len() implies #[trigger] self.child_ok(k, self.vec@[k].children@[j]) by {
                        if j < old_ast.vec@[k].children@.len() {
                            assert(old_ast.child_ok(k, old_ast.vec@[k].children@[j]));
                        }
                    }
                } else {
                    assert forall|j: int| 0 <= j < self.vec@[k].children@.len() implies #[trigger] self.child_ok(k, self.vec@[k].children@[j]) by {
                        assert(old_ast.child_ok(k, old_ast.vec@[k].children@[j]));
                    }
                    if self.vec@[k].t == ASTNodeType::Assignment {
                        assert(old_ast.child_ok(k, old_ast.vec@[k].children@[0]));
                    }
                }
            }
        }
    }

    pub fn get_first(&self, p: usize) -> (r: usize)
        requires
            self.wf(),
            p < self.vec@.len(),
            self.vec@[p as int].t == ASTNodeType::Pair,
        ensures
            r == self.child(p as int, 0),
            (r as int) < self.vec@.len(),
    {
        proof { self.lemma_node(p as int); }
        self.vec[p].children[0]
    }

    pub fn get_second(&self, p: usize) -> (r: usize)
        requires
            self.wf(),
            p < self.vec@.len(),
            self.vec@[p as int].t == ASTNodeType::Pair,
        ensures
            r == self.child(p as int, 1),
            (r as int) < self.vec@.len(),
    {
        proof { self.lemma_node(p as int); }
        self.vec[p].children[1]
    }

    pub fn get_abstr_var(&self, abst: usize) -> (r: usize)
        requires
            self.wf(),
            abst < self.vec@.len(),
            self.vec@[abst as int].t == ASTNodeType::Abstraction,
        ensures
            r == self.child(abst as int, 0),
            (r as int) < self.vec@.len(),
    {
        proof { self.lemma_node(abst as int); }
        self.vec[abst].children[0]
    }

    pub fn get_abstr_expr(&self, abst: usize) -> (r: usize)
        requires
            self.wf(),
            abst < self.vec@.len(),
            self.vec@[abst as int].t == ASTNodeType::Abstraction,
        ensures
            r == self.child(abst as int, 1),
            (r as int) < self.vec@.len(),
    {
        proof { self.lemma_node(abst as int); }
        self.vec[abst].children[1]
    }

    pub fn get_func(&self, app: usize) -> (r: usize)
        requires
            self.wf(),
            app < self.vec@.len(),
            self.vec@[app as int].t == ASTNodeType::Application,
        ensures
            r == self.child(app as int, 0),
            (r as int) < self.vec@.len(),
    {
        proof { self.lemma_node(app as int); }
        self.vec[app].children[0]
    }

    pub fn get_arg(&self, app: usize) -> (r: usize)
        requires
            self.wf(),
            app < self.vec@.len(),
            self.vec@[app as int].t == ASTNodeType::Application,
        ensures
            r == self.child(app as int, 1),
            (r as int) < self.vec@.len(),
    {
        proof { self.lemma_node(app as int); }
        self.vec[app].children[1]
    }

    pub fn get_assign_exp(&self, assign: usize) -> (r: usize)
        requires
            self.wf(),
            assign < self.vec@.len(),
            self.vec@[assign as int].t == ASTNodeType::Assignment,
        ensures
            r == self.child(assign as int, 1),
            (r as int) < self.vec@.len(),
            is_expr_kind(self.vec@[r as int].t),
    {
        proof { self.lemma_node(assign as int); }
        self.vec[assign].children[1]
    }

    /// The name an assignment binds.
    pub fn get_assignee(&self, assign: usize) -> (r: String)
        requires
            self.wf(),
            assign < self.vec@.len(),
            self.vec@[assign as int].t == ASTNodeType::Assignment,
        ensures
            r@ == self.assign_name(assign as int),
    {
        proof { self.lemma_node(assign as int); }
        let id = self.vec[assign].children[0];
        proof { assert(self.node_ok(id as int)); }
        self.vec[id].get_value()
    }

    /// The names that the assignments of a module bind, in order.
    pub fn get_assignee_names(&self, module: usize) -> (r: Vec<String>)
        requires
            self.wf(),
            module < self.vec@.len(),
            self.vec@[module as int].t == ASTNodeType::Module,
        ensures
            r@.len() == self.module_assigns(module as int).len(),
            forall|k: int| 0 <= k < r@.len() ==> #[trigger] r@[k]@ == self.assign_name(self.module_assigns(module as int)[k] as int),
    {
        proof { self.lemma_node(module as int); }
        let assigns = &self.vec[module].children;
        let mut names: Vec<String> = Vec::new();
        let mut k: usize = 0;
        while k < assigns.len()
            invariant
                self.wf(),
                module < self.vec@.len(),
                *assigns == self.vec@[module as int].children,
                self.vec@[module as int].t == ASTNodeType::Module,
                k <= assigns@.len(),
                names@.len() == k,
                forall|x: int| 0 <= x < k ==> #[trigger] names@[x]@ == self.assign_name(assigns@[x] as int),
            decreases assigns@.len() - k,
        {
            let a = assigns[k];
            proof { assert(self.node_ok(module as int)); assert(self.child_ok(module as int, assigns@[k as int])); }
            names.push(self.get_assignee(a));
            k = k + 1;
        }
        names
    }

    /// The assignment to `main` in a module.
    pub fn get_main(&self, module: usize) -> (r: Option<usize>)
        requires
            self.wf(),
            module < self.vec@.len(),
            self.vec@[module as int].t == ASTNodeType::Module,
        ensures
            r == self.find_assign(module as int, seq!['m', 'a', 'i', 'n']),
    {
        let name = lit("main");
        proof {
            reveal_strlit("main");
            assert(name@ =~= seq!['m', 'a', 'i', 'n']);
        }
        self.get_assign_to(module, name)
    }

    /// The first assignment of module `m` (in order) that binds `name`.
    pub open spec fn find_assign(&self, m: int, name: Seq<char>) -> Option<usize> {
        self.first_assign(self.module_assigns(m), name, 0)
    }

    /// The first of `cs[k..]` that binds `name`.
    pub open spec fn first_assign(&self, cs: Seq<usize>, name: Seq<char>, k: nat) -> Option<usize>
        decreases cs.len() - k,
    {
        if k >= cs.len() {
            None
        } else if self.assign_name(cs[k as int] as int) == name {
            Some(cs[k as int])
        } else {
            self.first_assign(cs, name, k + 1)
        }
    }

    /// The last of `cs[..k]` that binds `name`.
    pub open spec fn last_assign(&self, cs: Seq<usize>, name: Seq<char>, k: nat) -> Option<usize>
        decreases k,
    {
        if k == 0 || k > cs.len() {
            None
        } else if self.assign_name(cs[k - 1] as int) == name {
            Some(cs[k - 1])
        } else {
            self.last_assign(cs, name, (k - 1) as nat)
        }
    }

    /// The assignment that a name of module `m` stands for: the last one that binds it.
    pub open spec fn assign_for(&self, m: int, name: Seq<char>) -> Option<usize> {
        self.last_assign(self.module_assigns(m), name, self.module_assigns(m).len())
    }

    /// The first assignment of a module that binds `name`.
    pub fn get_assign_to(&self, module: usize, name: String) -> (r: Option<usize>)
        requires
            self.wf(),
            module < self.vec@.len(),
            self.vec@[module as int].t == ASTNodeType::Module,
        ensures
            r == self.find_assign(module as int, name@),
            r matches Some(a) ==> (a as int) < self.vec@.len() && self.vec@[a as int].t == ASTNodeType::Assignment
                && self.assign_name(a as int) == name@,
    {
        proof { self.lemma_node(module as int); }
        let assigns = &self.vec[module].children;
        let ghost cs = self.module_assigns(module as int);
        let mut k: usize = 0;
        while k < assigns.len()
            invariant
                self.wf(),
                module < self.vec@.len(),
                *assigns == self.vec@[module as int].children,
                cs == assigns@,
                self.vec@[module as int].t == ASTNodeType::Module,
                k <= assigns@.len(),
                self.first_assign(cs, name@, 0) == self.first_assign(cs, name@, k as nat),
            decreases assigns@.len() - k,
        {
            let a = assigns[k];
            proof { assert(self.node_ok(module as int)); assert(self.child_ok(module as int, assigns@[k as int])); }
            let n = self.get_assignee(a);
            if str_eq(&n, &name) {
                return Some(a);
            }
            k = k + 1;
        }
        None
    }

    /// Each name bound in a module with an assignment that binds it; names appear once,
    /// and every assignment's name appears.
    pub fn get_assigns_map(&self, module: usize) -> (r: Vec<(String, usize)>)
        requires
            self.wf(),
            module < self.vec@.len(),
            self.vec@[module as int].t == ASTNodeType::Module,
        ensures
            forall|k: int| 0 <= k < r@.len() ==> {
                let (nm, a) = #[trigger] r@[k];
                &&& self.module_assigns(module as int).contains(a)
                &&& self.assign_name(a as int) == nm@
            },
            forall|x: int, y: int| 0 <= x < y < r@.len() ==> r@[x].0@ != r@[y].0@,
            forall|a: usize| self.module_assigns(module as int).contains(a) ==> exists|k: int| 0 <= k < r@.len() && #[trigger] r@[k].0@ == self.assign_name(a as int),
            forall|k: int| 0 <= k < r@.len() ==> self.assign_for(module as int, (#[trigger] r@[k]).0@) == Some(r@[k].1),
    {
        proof { self.lemma_node(module as int); }
        let assigns = &self.vec[module].children;
        let ghost cs = self.module_assigns(module as int);
        let mut out: Vec<(String, usize)> = Vec::new();
        let mut k: usize = 0;
        while k < assigns.len()
            invariant
                self.wf(),
                module < self.vec@.len(),
                *assigns == self.vec@[module as int].children,
                cs == assigns@,
                self.vec@[module as int].t == ASTNodeType::Module,
                k <= assigns@.len(),
                forall|x: int| 0 <= x < out@.len() ==> {
                    let (nm, a) = #[trigger] out@[x];
                    &&& cs.contains(a)
                    &&& self.assign_name(a as int) == nm@
                },
                forall|x: int, y: int| 0 <= x < y < out@.len() ==> out@[x].0@ != out@[y].0@,
                forall|j: int| #![trigger cs[j]] 0 <= j < k ==> exists|x: int| 0 <= x < out@.len() && #[trigger] out@[x].0@ == self.assign_name(cs[j] as int),
                forall|x: int| 0 <= x < out@.len() ==> self.last_assign(cs, (#[trigger] out@[x]).0@, k as nat) == Some(out@[x].1),
            decreases assigns@.len() - k,
        {
            let a = assigns[k];
            proof { assert(self.node_ok(module as int)); assert(self.child_ok(module as int, assigns@[k as int])); }
            let n = self.get_assignee(a);
            let pos = position_of(&out, &n);
            let ghost prev = out@;
            if let Some(found) = pos {
                // a later assignment to the same name takes its place
                out.set(found, (n, a));
                proof {
                    assert forall|x: int| 0 <= x < out@.len() implies self.last_assign(cs, (#[trigger] out@[x]).0@, (k + 1) as nat) == Some(out@[x].1) by {
                        if x != found {
                            assert(out@[x] == prev[x]);
                            assert(prev[x].0@ != prev[found as int].0@);
                        }
                    }
                    assert(cs.contains(a)) by { assert(cs[k as int] == a); }
                    assert forall|j: int| #![trigger cs[j]] 0 <= j < k + 1 implies exists|y: int| 0 <= y < out@.len() && #[trigger] out@[y].0@ == self.assign_name(cs[j] as int) by {
                        if j < k {
                            let y = choose|y: int| 0 <= y < prev.len() && #[trigger] prev[y].0@ == self.assign_name(cs[j] as int);
                            assert(out@[y].0@ == prev[y].0@);
                        } else {
                            assert(out@[found as int].0@ == self.assign_name(cs[j] as int));
                        }
                    }
                }
            } else {
                out.push((n, a));
                proof {
                    assert forall|x: int| 0 <= x < out@.len() implies self.last_assign(cs, (#[trigger] out@[x]).0@, (k + 1) as nat) == Some(out@[x].1) by {
                        if x < prev.len() {
                            assert(out@[x] == prev[x]);
                        }
                    }
                    assert(cs.contains(a)) by { assert(cs[k as int] == a); }
                    assert forall|j: int| #![trigger cs[j]] 0 <= j < k + 1 implies exists|y: int| 0 <= y < out@.len() && #[trigger] out@[y].0@ == self.assign_name(cs[j] as int) by {
                        if j < k {
                            let y = choose|y: int| 0 <= y < prev.len() && #[trigger] prev[y].0@ == self.assign_name(cs[j] as int);
                            assert(out@[y].0@ == prev[y].0@);
                        } else {
                            assert(out@[prev.len() as int].0@ == self.assign_name(cs[j] as int));
                        }
                    }
                }
            }
            k = k + 1;
        }
        proof {
            assert forall|a: usize| cs.contains(a) implies exists|x: int| 0 <= x < out@.len() && #[trigger] out@[x].0@ == self.assign_name(a as int) by {
                let j = choose|j: int| 0 <= j < cs.len() && cs[j] == a;
            }
        }
        out
    }

    /// The pattern a match inspects.
    pub fn get_match_unpack_pattern(&self, match_: usize) -> (r: usize)
        requires
            self.wf(),
            match_ < self.vec@.len(),
            self.vec@[match_ as int].t == ASTNodeType::Match,
        ensures
            r == self.child(match_ as int, 0),
            (r as int) < self.vec@.len(),
    {
        proof { self.lemma_node(match_ as int); }
        self.vec[match_].children[0]
    }

    /// The cases of a match, as (pattern, expression) pairs in order.
    pub fn get_match_cases(&self, match_: usize) -> (r: Vec<(usize, usize)>)
        requires
            self.wf(),
            match_ < self.vec@.len(),
            self.vec@[match_ as int].t == ASTNodeType::Match,
        ensures
            2 * r@.len() + 1 == self.vec@[match_ as int].children@.len(),
            forall|k: int| 0 <= k < r@.len() ==> #[trigger] r@[k] == (self.child(match_ as int, 2 * k + 1), self.child(match_ as int, 2 * k + 2)),
    {
        proof { self.lemma_node(match_ as int); }
        let cs = &self.vec[match_].children;
        let n = (cs.len() - 1) / 2;
        let mut out: Vec<(usize, usize)> = Vec::new();
        let mut k: usize = 0;
        while k < n
            invariant
                *cs == self.vec@[match_ as int].children,
                cs@.len() == 2 * n + 1,
                k <= n,
                out@.len() == k,
                forall|j: int| 0 <= j < k ==> #[trigger] out@[j] == (cs@[j + j + 1], cs@[j + j + 2]),
            decreases n - k,
        {
            assert(k + k + 2 < cs.len());
            let i1 = k + k + 1;
            let i2 = i1 + 1;
            out.push((cs[i1], cs[i2]));
            k = k + 1;
        }
        out
    }

    /// Whether two expressions are written the same way.
    #[verifier::loop_isolation(false)]
    pub fn expr_eq(&self, n1: usize, n2: usize) -> (r: bool)
        requires
            self.wf(),
            n1 < self.vec@.len(),
            n2 < self.vec@.len(),
        ensures
            r == self.same_expr(n1 as int, n2 as int),
        decreases self.measure(n1 as int),
    {
        proof {
            self.lemma_node(n1 as int);
            self.lemma_node(n2 as int);
        }
        let a = &self.vec[n1];
        let b = &self.vec[n2];
        if (a.t == ASTNodeType::Identifier && b.t == ASTNodeType::Identifier) || (a.t == ASTNodeType::Literal && b.t == ASTNodeType::Literal) {
            let x = a.get_value();
            let y = b.get_value();
            str_eq(&x, &y)
        } else if a.t == b.t && (a.t == ASTNodeType::Application || a.t == ASTNodeType::Abstraction || a.t == ASTNodeType::Pair || a.t == ASTNodeType::Match) {
            if a.children.len() != b.children.len() && a.t != ASTNodeType::Match {
                return false;
            }
            let m = if a.children.len() < b.children.len() { a.children.len() } else { b.children.len() };
            let mut k: usize = 0;
            while k < m
                invariant
                    self.wf(),
                    n1 < self.vec@.len(),
                    n2 < self.vec@.len(),
                    *a == self.vec@[n1 as int],
                    *b == self.vec@[n2 as int],
                    m <= a.children@.len(),
                    m <= b.children@.len(),
                    m == a.children@.len() || m == b.children@.len(),
                    k <= m,
                    self.same_children(n1 as int, n2 as int, k as nat),
                    forall|j: int| 0 <= j < a.children@.len() ==> {
                        let c = #[trigger] a.children@[j] as int;
                        0 <= c < self.vec@.len() && self.measure(c) < self.measure(n1 as int)
                    },
                    forall|j: int| 0 <= j < b.children@.len() ==> {
                        let c = #[trigger] b.children@[j] as int;
                        0 <= c < self.vec@.len()
                    },
                decreases m - k,
            {
                let ca = a.children[k];
                let cb = b.children[k];
                if !self.expr_eq(ca, cb) {
                    proof {
                        if self.same_expr(n1 as int, n2 as int) {
                            assert(self.same_children(n1 as int, n2 as int, m as nat));
                            self.lemma_same_children_prefix(n1 as int, n2 as int, (k + 1) as nat, m as nat);
                            assert(self.same_children(n1 as int, n2 as int, (k + 1) as nat));
                            assert(self.child(n1 as int, k as int) == ca);
                            assert(self.same_expr(ca as int, cb as int));
                        }
                    }
                    return false;
                }
                k = k + 1;
            }
            true
        } else {
            false
        }
    }

    /// Whether expressions `n1` and `n2` are written the same way: equal names for
    /// identifiers and literals, equal children for applications, abstractions and pairs,
    /// and for matches equal children as far as the shorter one goes.
    pub open spec fn same_expr(&self, n1: int, n2: int) -> bool
        decreases self.measure(n1), 1nat, 0nat,
    {
        let a = self.vec@[n1];
        let b = self.vec@[n2];
        if !(self.wf() && self.valid(n1) && self.valid(n2)) {
            false
        } else if (a.t == ASTNodeType::Identifier && b.t == ASTNodeType::Identifier) || (a.t
            == ASTNodeType::Literal && b.t == ASTNodeType::Literal) {
            a.info->0.value@ == b.info->0.value@
        } else if a.t == b.t && (a.t == ASTNodeType::Application || a.t == ASTNodeType::Abstraction
            || a.t == ASTNodeType::Pair || a.t == ASTNodeType::Match) {
            let m = if a.children@.len() < b.children@.len() {
                a.children@.len()
            } else {
                b.children@.len()
            };
            (a.t == ASTNodeType::Match || a.children@.len() == b.children@.len())
                && self.same_children(n1, n2, m)
        } else {
            false
        }
    }

    pub proof fn lemma_same_children_prefix(&self, n1: int, n2: int, i: nat, j: nat)
        requires
            i <= j,
            self.same_children(n1, n2, j),
        ensures
            self.same_children(n1, n2, i),
        decreases j - i,
    {
        if i < j {
            self.lemma_same_children_prefix(n1, n2, i, (j - 1) as nat);
        }
    }

    /// Whether the first `k` children of `n1` and `n2` are written the same way.
    pub open spec fn same_children(&self, n1: int, n2: int, k: nat) -> bool
        decreases self.measure(n1), 0nat, k,
    {
        if k == 0 {
            true
        } else if self.wf() && self.valid(n1) && self.valid(n2) && k <= self.vec@[n1].children@.len() && k <= self.vec@[n2].children@.len() {
            proof { self.lemma_node(n1); }
            self.same_children(n1, n2, (k - 1) as nat) && self.same_expr(self.child(n1, k - 1) as int, self.child(n2, k - 1) as int)
        } else {
            false
        }
    }

}

/// Where the name `s` stands among the first components of `v`.
pub fn position_of(v: &Vec<(String, usize)>, s: &String) -> (r: Option<usize>)
    ensures
        r matches Some(x) ==> x < v@.len() && v@[x as int].0@ == s@,
        r is None ==> forall|y: int| 0 <= y < v@.len() ==> v@[y].0@ != s@,
{
    let mut x: usize = 0;
    while x < v.len()
        invariant
            x <= v@.len(),
            forall|y: int| 0 <= y < x ==> v@[y].0@ != s@,
        decreases v@.len() - x,
    {
        if str_eq(&v[x].0, s) {
            return Some(x);
        }
        x = x + 1;
    }
    None
}

/// Whether `n` is a fresh node of kind `t` with the given token, children and position.
pub open spec fn is_node(n: ASTNode, t: ASTNodeType, info: Option<Token>, cs: Seq<usize>, line: usize, col: usize) -> bool {
    &&& n.t == t
    &&& n.info == info
    &&& n.children@ == cs
    &&& n.line == line
    &&& n.col == col
    &&& n.type_assignment is None
    &&& !n.wait_for_args
    &&& !n.fancy_assign_abst_syntax
    &&& !n.is_silent
}

impl ASTNode {
    pub fn new_id(tk: Token, line: usize, col: usize) -> (r: Self)
        ensures
            is_node(r, ASTNodeType::Identifier, Some(tk), seq![], line, col),
            !r.dollar_app,
    {
        let r = ASTNode {
            t: ASTNodeType::Identifier,
            info: Some(tk),
            children: Vec::new(),
            line,
            col,
            type_assignment: None,
            wait_for_args: false,
            fancy_assign_abst_syntax: false,
            dollar_app: false,
            is_silent: false,
        };
        assert(r.children@ =~= seq![]);
        r
    }

    pub fn new_lit(tk: Token, line: usize, col: usize) -> (r: Self)
        ensures
            is_node(r, ASTNodeType::Literal, Some(tk), seq![], line, col),
            !r.dollar_app,
    {
        let r = ASTNode {
            t: ASTNodeType::Literal,
            info: Some(tk),
            children: Vec::new(),
            line,
            col,
            type_assignment: None,
            wait_for_args: false,
            fancy_assign_abst_syntax: false,
            dollar_app: false,
            is_silent: false,
        };
        assert(r.children@ =~= seq![]);
        r
    }

    /// A node with two children (pair, application, abstraction or assignment).
    pub fn new_two(t: ASTNodeType, a: usize, b: usize, line: usize, col: usize, dollar: bool) -> (r: Self)
        ensures
            is_node(r, t, None, seq![a, b], line, col),
            r.dollar_app == dollar,
    {
        let r = ASTNode {
            t,
            info: None,
            children: vec![a, b],
            line,
            col,
            type_assignment: None,
            wait_for_args: false,
            fancy_assign_abst_syntax: false,
            dollar_app: dollar,
            is_silent: false,
        };
        assert(r.children@ =~= seq![a, b]);
        r
    }

    /// A node with any number of children (match or module).
    pub fn new_many(t: ASTNodeType, cs: Vec<usize>, line: usize, col: usize) -> (r: Self)
        ensures
            is_node(r, t, None, cs@, line, col),
            !r.dollar_app,
    {
        ASTNode {
            t,
            info: None,
            children: cs,
            line,
            col,
            type_assignment: None,
            wait_for_args: false,
            fancy_assign_abst_syntax: false,
            dollar_app: false,
            is_silent: false,
        }
    }

    /// The text of an identifier or literal.
    pub fn get_value(&self) -> (r: String)
        requires
            self.info is Some,
        ensures
            r@ == self.info->0.value@,
    {
        match &self.info {
            Some(tk) => tk.value.clone(),
            None => String::new(),
        }
    }

    /// The type of a literal: `Int`, `Float`, `Bool` or `Char` by its token.
    pub fn get_lit_type(&self) -> (r: Result<Type, TypeError>)
        ensures
            r matches Ok(t) ==> self.t == ASTNodeType::Literal && self.info is Some && t@ == lit_type(self.info->0.tt),
            r is Ok <==> (self.t == ASTNodeType::Literal && self.info is Some && lit_kind(self.info->0.tt)),
            r matches Err(e) ==> e.line == self.line && e.col == self.col
                && (self.t == ASTNodeType::Literal && self.info is Some ==> e.e@ == "Literal node with bad token"@),
    {
        match &self.info {
            Some(tk) => {
                if self.t != ASTNodeType::Literal {
                    return Err(TypeError { e: lit("get_lit_type called on non-literal node"), line: self.line, col: self.col });
                }
                match tk.tt {
                    TokenType::IntLit => Ok(Type::int64()),
                    TokenType::FloatLit => Ok(Type::float64()),
                    TokenType::BoolLit => Ok(Type::bool()),
                    TokenType::CharLit => Ok(Type::char()),
                    _ => Err(TypeError { e: lit("Literal node with bad token"), line: self.line, col: self.col }),
                }
            },
            None => Err(TypeError { e: lit("Literal node with no token"), line: self.line, col: self.col }),
        }
    }

    /// Whether this is an identifier whose first character is upper case (a constructor).
    pub fn is_uppercase(&self) -> (r: bool)
        requires
            self.t == ASTNodeType::Identifier ==> (self.info is Some && self.info->0.value@.len() > 0),
        ensures
            r == (self.t == ASTNodeType::Identifier && unicode_uppercase(self.info->0.value@[0])),
    {
        if self.t == ASTNodeType::Identifier {
            match &self.info {
                Some(tk) => {
                    let c = tk.value.as_str().get_char(0);
                    char_is_uppercase(c)
                },
                None => false,
            }
        } else {
            false
        }
    }
}

/// Token kinds that literals carry.
pub open spec fn lit_kind(tt: TokenType) -> bool {
    tt == TokenType::IntLit || tt == TokenType::FloatLit || tt == TokenType::BoolLit || tt == TokenType::CharLit
}

/// The type of a literal with a token of kind `tt`.
pub open spec fn lit_type(tt: TokenType) -> TypeV {
    if tt == TokenType::IntLit {
        TypeV::Primitive(Primitive::Int64)
    } else if tt == TokenType::FloatLit {
        TypeV::Primitive(Primitive::Float64)
    } else if tt == TokenType::BoolLit {
        TypeV::Primitive(Primitive::Bool)
    } else {
        TypeV::Primitive(Primitive::Char)
    }
}

} // verus!
