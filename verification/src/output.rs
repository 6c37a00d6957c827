//! Writing trees back as program text.
use vstd::prelude::*;

use crate::ast::{is_expr_kind, ASTNodeType, RCPair, AST};
use crate::text::{is_whitespace, lit, push_char, push_str, spec_is_whitespace, str_eq};
use crate::token::{infix_name, TokenType};
use crate::types::{tv_str, Type};

verus! {

/// `s` without white space at its start.
pub open spec fn trim_start(s: Seq<char>) -> Seq<char>
    decreases s.len(),
{
    if s.len() > 0 && spec_is_whitespace(s[0]) {
        trim_start(s.drop_first())
    } else {
        s
    }
}

/// `s` without white space at its end.
pub open spec fn trim_end(s: Seq<char>) -> Seq<char>
    decreases s.len(),
{
    if s.len() > 0 && spec_is_whitespace(s.last()) {
        trim_end(s.drop_last())
    } else {
        s
    }
}

/// `s` without white space at either end, as `str::trim` gives it.
pub open spec fn trim(s: Seq<char>) -> Seq<char> {
    trim_end(trim_start(s))
}

/// `str::trim`: the string without leading and trailing white space.
pub fn trim_string(s: &String) -> (r: String)
    ensures
        r@ == trim(s@),
{
    let v = crate::text::chars_of(s);
    let n = v.len();
    let mut a: usize = 0;
    assert(s@.subrange(0, n as int) =~= s@);
    while a < n && is_whitespace(v[a])
        invariant
            a <= n,
            n == v@.len(),
            v@ == s@,
            trim_start(s@) == trim_start(s@.subrange(a as int, n as int)),
        decreases n - a,
    {
        assert(s@.subrange(a as int, n as int).drop_first() =~= s@.subrange(a + 1, n as int));
        a = a + 1;
    }
    assert(trim_start(s@.subrange(a as int, n as int)) == s@.subrange(a as int, n as int));
    let mut b: usize = n;
    while b > a && is_whitespace(v[b - 1])
        invariant
            a <= b <= n,
            n == v@.len(),
            v@ == s@,
            trim(s@) == trim_end(s@.subrange(a as int, b as int)),
        decreases b,
    {
        assert(s@.subrange(a as int, b as int).drop_last() =~= s@.subrange(a as int, b - 1));
        b = b - 1;
    }
    assert(trim_end(s@.subrange(a as int, b as int)) == s@.subrange(a as int, b as int));
    let mut out = String::new();
    let mut k = a;
    while k < b
        invariant
            a <= k <= b,
            b <= n,
            n == v@.len(),
            v@ == s@,
            out@ == s@.subrange(a as int, k as int),
        decreases b - k,
    {
        push_char(&mut out, v[k]);
        k = k + 1;
        assert(out@ =~= s@.subrange(a as int, k as int));
    }
    out
}

pub open spec fn sp(s: Seq<char>) -> Seq<char> {
    s
}

impl AST {
    /// Whether node `i` is `if c then a else b` written as the inbuilt `if` applied to
    /// three arguments.
    pub open spec fn is_ite(&self, i: int) -> bool {
        &&& self.vec@[i].t == ASTNodeType::Application
        &&& self.vec@[self.child(i, 0) as int].t == ASTNodeType::Application
        &&& self.vec@[self.child(self.child(i, 0) as int, 0) as int].t == ASTNodeType::Application
        &&& self.vec@[self.child(self.child(self.child(i, 0) as int, 0) as int, 0) as int].t == ASTNodeType::Identifier
        &&& self.value_of(self.child(self.child(self.child(i, 0) as int, 0) as int, 0) as int) == seq!['i', 'f']
    }

    /// How node `i` is written with the syntactic sugar of the language: infix operators
    /// between their operands, `if .. then .. else ..`, `f x = ..` for assignments of
    /// abstractions so written, `$` applications; with `show`, the types of typed
    /// assignments on a line before them.
    pub open spec fn sugar(&self, i: int, show: bool) -> Seq<char>
        decreases self.measure(i), 2nat, 0nat,
    {
        if !(self.wf() && self.valid(i)) {
            Seq::empty()
        } else {
            proof { self.lemma_node(i); }
            let n = self.vec@[i];
            if n.t == ASTNodeType::Identifier {
                match n.type_assignment {
                    Some(t) => self.value_of(i) + seq![' ', ':', ':', ' '] + tv_str(t@, false),
                    None => self.value_of(i),
                }
            } else if n.t == ASTNodeType::Literal {
                self.value_of(i)
            } else if n.t == ASTNodeType::Application {
                let f = self.child(i, 0) as int;
                let x = self.child(i, 1) as int;
                if self.is_ite(i) {
                    let a2 = self.child(f, 0) as int;
                    proof {
                        self.lemma_node(f);
                        self.lemma_node(a2);
                    }
                    seq!['i', 'f', ' '] + self.sugar(self.child(a2, 1) as int, show) + seq![' ', 't', 'h', 'e', 'n', ' ']
                        + self.sugar(self.child(f, 1) as int, show) + seq![' ', 'e', 'l', 's', 'e', ' ']
                        + self.sugar(x, show)
                } else {
                    let fs = self.sugar(f, show);
                    let xs = self.sugar(x, show);
                    if n.dollar_app {
                        fs + seq![' ', '$', ' '] + xs
                    } else {
                        let fs2 = if self.vec@[f].t == ASTNodeType::Abstraction { paren(fs) } else { fs };
                        let xs2 = if self.vec@[x].t == ASTNodeType::Application || self.vec@[x].t == ASTNodeType::Abstraction { paren(xs) } else { xs };
                        if self.vec@[f].info is Some && self.vec@[f].info->0.tt == TokenType::Id && infix_name(self.vec@[f].info->0.value@) {
                            xs2 + seq![' '] + fs2
                        } else {
                            fs2 + seq![' '] + xs2
                        }
                    }
                }
            } else if n.t == ASTNodeType::Match {
                seq!['m', 'a', 't', 'c', 'h', ' ', '('] + self.sugar(self.child(i, 0) as int, false) + seq![')', ' ', '{', '\n']
                    + self.cases_sugar(i, show, ((n.children@.len() - 1) / 2) as nat) + seq!['}']
            } else if n.t == ASTNodeType::Assignment {
                let e = self.child(i, 1) as int;
                let name = self.value_of(self.child(i, 0) as int);
                let type_str = if show && n.type_assignment is Some {
                    name + seq![' ', ':', ':', ' '] + tv_str(n.type_assignment->0@, false) + seq!['\n']
                } else {
                    Seq::empty()
                };
                type_str + name + self.fancy_vars(e, show) + seq![' ', '=', ' '] + self.fancy_body(e, show)
            } else if n.t == ASTNodeType::Module {
                trim(self.module_sugar(i, show, n.children@.len()))
            } else if n.t == ASTNodeType::Abstraction {
                seq!['\\'] + self.sugar(self.child(i, 0) as int, show) + seq!['.', ' '] + self.sugar(self.child(i, 1) as int, show)
            } else {
                paren(self.sugar(self.child(i, 0) as int, show) + seq![',', ' '] + self.sugar(self.child(i, 1) as int, show))
            }
        }
    }

    /// The first `k` cases of match `i`, each as `  | pattern -> expression` on a line.
    pub open spec fn cases_sugar(&self, i: int, show: bool, k: nat) -> Seq<char>
        decreases self.measure(i), 1nat, k,
    {
        if k == 0 || !(self.wf() && self.valid(i)) || 2 * k + 1 > self.vec@[i].children@.len() {
            Seq::empty()
        } else {
            proof { self.lemma_node(i); }
            self.cases_sugar(i, show, (k - 1) as nat) + seq![' ', ' ', '|', ' '] + self.sugar(self.child(i, 2 * k - 1) as int, false)
                + seq![' ', '-', '>', ' '] + self.sugar(self.child(i, 2 * k as int) as int, show) + seq!['\n']
        }
    }

    /// The first `k` assignments of module `i`, each followed by a line break.
    pub open spec fn module_sugar(&self, i: int, show: bool, k: nat) -> Seq<char>
        decreases self.measure(i), 1nat, k,
    {
        if k == 0 || !(self.wf() && self.valid(i)) || k > self.vec@[i].children@.len() {
            Seq::empty()
        } else {
            proof { self.lemma_node(i); }
            self.module_sugar(i, show, (k - 1) as nat) + self.sugar(self.child(i, k - 1) as int, show) + seq!['\n']
        }
    }

    /// The variables of the abstractions at `e` written after the name of an assignment,
    /// each after a space.
    pub open spec fn fancy_vars(&self, e: int, show: bool) -> Seq<char>
        decreases self.measure(e), 3nat, 0nat,
    {
        if !(self.wf() && self.valid(e)) || !self.vec@[e].fancy_assign_abst_syntax || self.vec@[e].t != ASTNodeType::Abstraction {
            Seq::empty()
        } else {
            proof { self.lemma_node(e); }
            seq![' '] + self.sugar(self.child(e, 0) as int, show) + self.fancy_vars(self.child(e, 1) as int, show)
        }
    }

    /// What follows `=` in an assignment whose expression is at `e`.
    pub open spec fn fancy_body(&self, e: int, show: bool) -> Seq<char>
        decreases self.measure(e), 3nat, 0nat,
    {
        if !(self.wf() && self.valid(e)) || !self.vec@[e].fancy_assign_abst_syntax || self.vec@[e].t != ASTNodeType::Abstraction {
            self.sugar(e, show)
        } else {
            proof { self.lemma_node(e); }
            self.fancy_body(self.child(e, 1) as int, show)
        }
    }
}

pub open spec fn paren(s: Seq<char>) -> Seq<char> {
    seq!['('] + s + seq![')']
}

/// `s` between round brackets.
pub fn paren_string(s: String) -> (r: String)
    ensures
        r@ == paren(s@),
{
    let mut out = String::new();
    push_char(&mut out, '(');
    push_str(&mut out, s.as_str());
    push_char(&mut out, ')');
    assert(out@ =~= paren(s@));
    out
}

impl AST {
    /// Node `node` written with the syntactic sugar of the language (see `sugar`).
    #[verifier::loop_isolation(false)]
    pub fn to_string_sugar(&self, node: usize, show_assigned_types: bool) -> (r: String)
        requires
            self.wf(),
            node < self.vec@.len(),
        ensures
            r@ == self.sugar(node as int, show_assigned_types),
        decreases self.measure(node as int), 2nat, 0nat,
    {
        let show = show_assigned_types;
        proof { self.lemma_node(node as int); }
        let n = &self.vec[node];
        if n.t == ASTNodeType::Identifier {
            let v = n.get_value();
            match &n.type_assignment {
                Some(t) => {
                    let mut s = v;
                    push_str(&mut s, " :: ");
                    let ts = t.to_string();
                    push_str(&mut s, ts.as_str());
                    proof { reveal_strlit(" :: "); }
                    s
                },
                None => v,
            }
        } else if n.t == ASTNodeType::Literal {
            n.get_value()
        } else if n.t == ASTNodeType::Application {
            self.app_to_string(node, show)
        } else if n.t == ASTNodeType::Match {
            let mut s = lit("match (");
            let us = self.to_string_sugar(n.children[0], false);
            push_str(&mut s, us.as_str());
            push_str(&mut s, ") {\n");
            let cases = self.cases_to_string(node, show);
            push_str(&mut s, cases.as_str());
            push_char(&mut s, '}');
            proof {
                reveal_strlit("match (");
                reveal_strlit(") {\n");
            }
            s
        } else if n.t == ASTNodeType::Assignment {
            let e = n.children[1];
            let id = n.children[0];
            proof { assert(self.node_ok(id as int)); }
            let name = self.vec[id].get_value();
            let mut s = String::new();
            if show {
                match &n.type_assignment {
                    Some(t) => {
                        push_str(&mut s, name.as_str());
                        push_str(&mut s, " :: ");
                        let ts = t.to_string();
                        push_str(&mut s, ts.as_str());
                        push_char(&mut s, '\n');
                    },
                    None => {},
                }
            }
            push_str(&mut s, name.as_str());
            let (vars, body) = self.fancy_to_string(e, show);
            push_str(&mut s, vars.as_str());
            push_str(&mut s, " = ");
            push_str(&mut s, body.as_str());
            proof {
                reveal_strlit(" :: ");
                reveal_strlit(" = ");
            }
            s
        } else if n.t == ASTNodeType::Module {
            let mut s = String::new();
            let mut k: usize = 0;
            while k < n.children.len()
                invariant
                    self.wf(),
                    node < self.vec@.len(),
                    *n == self.vec@[node as int],
                    k <= n.children@.len(),
                    s@ == self.module_sugar(node as int, show, k as nat),
                decreases n.children@.len() - k,
            {
                let c = self.to_string_sugar(n.children[k], show);
                push_str(&mut s, c.as_str());
                push_char(&mut s, '\n');
                k = k + 1;
            }
            trim_string(&s)
        } else if n.t == ASTNodeType::Abstraction {
            let es = self.to_string_sugar(n.children[1], show);
            let vs = self.to_string_sugar(n.children[0], show);
            let mut res = String::new();
            push_char(&mut res, '\\');
            push_str(&mut res, vs.as_str());
            push_char(&mut res, '.');
            push_char(&mut res, ' ');
            push_str(&mut res, es.as_str());
            res
        } else {
            let a = self.to_string_sugar(n.children[0], show);
            let b = self.to_string_sugar(n.children[1], show);
            let mut s = String::new();
            push_str(&mut s, a.as_str());
            push_char(&mut s, ',');
            push_char(&mut s, ' ');
            push_str(&mut s, b.as_str());
            paren_string(s)
        }
    }


    /// An application written with the syntactic sugar of the language.
    #[verifier::loop_isolation(false)]
    fn app_to_string(&self, node: usize, show: bool) -> (r: String)
        requires
            self.wf(),
            node < self.vec@.len(),
            self.vec@[node as int].t == ASTNodeType::Application,
        ensures
            r@ == self.sugar(node as int, show),
        decreases self.measure(node as int), 1nat, 0nat,
    {
        proof { self.lemma_node(node as int); }
        let n = &self.vec[node];
        let f = n.children[0];
        let x = n.children[1];
        if self.check_ite(node) {
            proof { self.lemma_node(f as int); }
            let a2 = self.vec[f].children[0];
            proof { self.lemma_node(a2 as int); }
            let c = self.vec[a2].children[1];
            let a = self.vec[f].children[1];
            let mut s = lit("if ");
            let cs = self.to_string_sugar(c, show);
            push_str(&mut s, cs.as_str());
            push_str(&mut s, " then ");
            let as_ = self.to_string_sugar(a, show);
            push_str(&mut s, as_.as_str());
            push_str(&mut s, " else ");
            let bs = self.to_string_sugar(x, show);
            push_str(&mut s, bs.as_str());
            proof {
                reveal_strlit("if ");
                reveal_strlit(" then ");
                reveal_strlit(" else ");
            }
            return s;
        }
        let fs = self.to_string_sugar(f, show);
        let xs = self.to_string_sugar(x, show);
        if n.dollar_app {
            let mut s = fs;
            push_str(&mut s, " $ ");
            push_str(&mut s, xs.as_str());
            proof { reveal_strlit(" $ "); }
            return s;
        }
        let fs2 = if self.vec[f].t == ASTNodeType::Abstraction { paren_string(fs) } else { fs };
        let xs2 = if self.vec[x].t == ASTNodeType::Application || self.vec[x].t == ASTNodeType::Abstraction { paren_string(xs) } else { xs };
        let infix = match &self.vec[f].info {
            Some(tk) => tk.tt == TokenType::Id && crate::text::first_char(&tk.value).is_some() && tk.is_infix_id(),
            None => false,
        };
        if infix {
            let mut s = xs2;
            push_char(&mut s, ' ');
            push_str(&mut s, fs2.as_str());
            s
        } else {
            let mut s = fs2;
            push_char(&mut s, ' ');
            push_str(&mut s, xs2.as_str());
            s
        }
    }

    /// Whether node `i` is `if` applied to three arguments.
    fn check_ite(&self, i: usize) -> (r: bool)
        requires
            self.wf(),
            i < self.vec@.len(),
        ensures
            r == self.is_ite(i as int),
    {
        proof { self.lemma_node(i as int); }
        if self.vec[i].t != ASTNodeType::Application {
            return false;
        }
        let f = self.vec[i].children[0];
        proof { self.lemma_node(f as int); }
        if self.vec[f].t != ASTNodeType::Application {
            return false;
        }
        let g = self.vec[f].children[0];
        proof { self.lemma_node(g as int); }
        if self.vec[g].t != ASTNodeType::Application {
            return false;
        }
        let h = self.vec[g].children[0];
        proof { self.lemma_node(h as int); }
        if self.vec[h].t != ASTNodeType::Identifier {
            return false;
        }
        let v = self.vec[h].get_value();
        let ifs = lit("if");
        proof {
            reveal_strlit("if");
            assert(ifs@ =~= seq!['i', 'f']);
        }
        str_eq(&v, &ifs)
    }

    fn cases_to_string(&self, node: usize, show: bool) -> (r: String)
        requires
            self.wf(),
            node < self.vec@.len(),
            self.vec@[node as int].t == ASTNodeType::Match,
        ensures
            r@ == self.cases_sugar(node as int, show, ((self.vec@[node as int].children@.len() - 1) / 2) as nat),
        decreases self.measure(node as int), 1nat, 0nat,
    {
        proof { self.lemma_node(node as int); }
        let cases = self.get_match_cases(node);
        let mut s = String::new();
        let mut k: usize = 0;
        while k < cases.len()
            invariant
                self.wf(),
                node < self.vec@.len(),
                self.vec@[node as int].t == ASTNodeType::Match,
                2 * cases@.len() + 1 == self.vec@[node as int].children@.len(),
                forall|x: int| 0 <= x < cases@.len() ==> #[trigger] cases@[x] == (self.child(node as int, 2 * x + 1), self.child(node as int, 2 * x + 2)),
                k <= cases@.len(),
                s@ == self.cases_sugar(node as int, show, k as nat),
            decreases cases@.len() - k,
        {
            let (p, e) = cases[k];
            proof {
                self.lemma_node(node as int);
                assert(p == self.vec@[node as int].children@[2 * k + 1]);
                assert(e == self.vec@[node as int].children@[2 * k + 2]);
            }
            push_str(&mut s, "  | ");
            let ps = self.to_string_sugar(p, false);
            push_str(&mut s, ps.as_str());
            push_str(&mut s, " -> ");
            let es = self.to_string_sugar(e, show);
            push_str(&mut s, es.as_str());
            push_char(&mut s, '\n');
            proof {
                reveal_strlit("  | ");
                reveal_strlit(" -> ");
            }
            k = k + 1;
        }
        s
    }

    /// The variables written before `=` and the expression after it, for an assignment's
    /// expression at `e`.
    fn fancy_to_string(&self, e: usize, show: bool) -> (r: (String, String))
        requires
            self.wf(),
            e < self.vec@.len(),
        ensures
            r.0@ == self.fancy_vars(e as int, show),
            r.1@ == self.fancy_body(e as int, show),
        decreases self.measure(e as int), 3nat, 0nat,
    {
        proof { self.lemma_node(e as int); }
        if self.vec[e].fancy_assign_abst_syntax && self.vec[e].t == ASTNodeType::Abstraction {
            let v = self.vec[e].children[0];
            let b = self.vec[e].children[1];
            let vs = self.to_string_sugar(v, show);
            let (rest, body) = self.fancy_to_string(b, show);
            let mut s = String::new();
            push_char(&mut s, ' ');
            push_str(&mut s, vs.as_str());
            push_str(&mut s, rest.as_str());
            (s, body)
        } else {
            (String::new(), self.to_string_sugar(e, show))
        }
    }

    /// A redex and its contraction: `redex -> contraction`.
    pub fn rc_to_str(&self, rc: &RCPair) -> (r: String)
        requires
            self.wf(),
            rc.from < self.vec@.len(),
            rc.ok(),
        ensures
            r@ == self.sugar(rc.from as int, false) + seq![' ', '-', '>', ' '] + rc.to.sugar(rc.to.root as int, false),
    {
        let mut s = self.to_string_sugar(rc.from, false);
        push_str(&mut s, " -> ");
        let t = rc.to.to_string_sugar(rc.to.root, false);
        push_str(&mut s, t.as_str());
        proof { reveal_strlit(" -> "); }
        s
    }
}

impl AST {
    /// The type of a literal node; other nodes have no type of their own here.
    pub fn get_type(&self, node: usize) -> (r: Result<Type, crate::types::TypeError>)
        requires
            node < self.vec@.len(),
        ensures
            r is Ok <==> (self.vec@[node as int].t == ASTNodeType::Literal && self.vec@[node as int].info is Some
                && crate::ast::lit_kind(self.vec@[node as int].info->0.tt)),
            r matches Ok(t) ==> t@ == crate::ast::lit_type(self.vec@[node as int].info->0.tt),
    {
        let n = &self.vec[node];
        if n.t == ASTNodeType::Literal {
            n.get_lit_type()
        } else {
            Err(crate::types::TypeError { e: lit("Only a literal has a type of its own"), line: n.line, col: n.col })
        }
    }
}

/// The redex positions among the first `k` of `froms` whose redex is not written like
/// an earlier one, in order.
pub open spec fn distinct_froms(ast: &AST, froms: Seq<usize>, k: nat) -> Seq<usize>
    decreases k,
{
    if k == 0 || k > froms.len() {
        Seq::empty()
    } else {
        let rest = distinct_froms(ast, froms, (k - 1) as nat);
        if exists|j: int| 0 <= j < k - 1 && #[trigger] ast.sugar(froms[j] as int, false) == ast.sugar(froms[k - 1] as int, false) {
            rest
        } else {
            rest.push(froms[k - 1])
        }
    }
}

/// The positions among the first `k` of `froms` whose redex is not written like an
/// earlier one, in order.
pub open spec fn distinct_idx(ast: &AST, froms: Seq<usize>, k: nat) -> Seq<int>
    decreases k,
{
    if k == 0 || k > froms.len() {
        Seq::empty()
    } else {
        let rest = distinct_idx(ast, froms, (k - 1) as nat);
        if exists|j: int| 0 <= j < k - 1 && #[trigger] ast.sugar(froms[j] as int, false) == ast.sugar(froms[k - 1] as int, false) {
            rest
        } else {
            rest.push(k - 1)
        }
    }
}

impl AST {
    /// The redexes of `rcs` but those written like an earlier one, in order.
    pub fn filter_identical_rcs(&self, rcs: &Vec<RCPair>) -> (r: Vec<RCPair>)
        requires
            self.wf(),
            forall|k: int| 0 <= k < rcs@.len() ==> (#[trigger] rcs@[k]).ok() && rcs@[k].from < self.vec@.len(),
        ensures
            crate::transform::rc_froms(r@) == distinct_froms(self, crate::transform::rc_froms(rcs@), rcs@.len()),
            forall|k: int| 0 <= k < r@.len() ==> (#[trigger] r@[k]).ok(),
            r@.len() == distinct_idx(self, crate::transform::rc_froms(rcs@), rcs@.len()).len(),
            forall|k: int| 0 <= k < r@.len() ==> crate::transform::same_rc(#[trigger] r@[k],
                rcs@[distinct_idx(self, crate::transform::rc_froms(rcs@), rcs@.len())[k]]),
    {
        let ghost froms = crate::transform::rc_froms(rcs@);
        let mut seen: Vec<String> = Vec::new();
        let mut out: Vec<RCPair> = Vec::new();
        let mut k: usize = 0;
        while k < rcs.len()
            invariant
                self.wf(),
                froms == crate::transform::rc_froms(rcs@),
                forall|j: int| 0 <= j < rcs@.len() ==> (#[trigger] rcs@[j]).ok() && rcs@[j].from < self.vec@.len(),
                k <= rcs@.len(),
                seen@.len() == k,
                forall|j: int| 0 <= j < k ==> (#[trigger] seen@[j])@ == self.sugar(froms[j] as int, false),
                crate::transform::rc_froms(out@) == distinct_froms(self, froms, k as nat),
                forall|j: int| 0 <= j < out@.len() ==> (#[trigger] out@[j]).ok(),
                out@.len() == distinct_idx(self, froms, k as nat).len(),
                forall|j: int| 0 <= j < distinct_idx(self, froms, k as nat).len() ==> 0 <= #[trigger] distinct_idx(self, froms, k as nat)[j] < k,
                forall|j: int| 0 <= j < out@.len() ==> crate::transform::same_rc(#[trigger] out@[j], rcs@[distinct_idx(self, froms, k as nat)[j]]),
            decreases rcs@.len() - k,
        {
            let st = self.to_string_sugar(rcs[k].from, false);
            let dup = crate::types::names_contain(&seen, &st);
            proof {
                assert(froms[k as int] == rcs@[k as int].from);
                if dup {
                    let j = choose|j: int| 0 <= j < seen@.len() && seen@[j]@ == st@;
                    assert(self.sugar(froms[j] as int, false) == self.sugar(froms[k as int] as int, false));
                } else {
                    assert forall|j: int| 0 <= j < k implies self.sugar(froms[j] as int, false) != self.sugar(froms[k as int] as int, false) by {
                        assert(seen@[j]@ == self.sugar(froms[j] as int, false));
                    }
                }
            }
            let ghost prev = out@;
            let ghost pidx = distinct_idx(self, froms, k as nat);
            if !dup {
                let c = rcs[k].copy();
                out.push(c);
                assert(crate::transform::rc_froms(out@) =~= crate::transform::rc_froms(prev).push(froms[k as int]));
                assert(distinct_idx(self, froms, (k + 1) as nat) == pidx.push(k as int));
                assert forall|j: int| 0 <= j < out@.len() implies crate::transform::same_rc(#[trigger] out@[j], rcs@[distinct_idx(self, froms, (k + 1) as nat)[j]]) by {
                    if j < prev.len() {
                        assert(out@[j] == prev[j]);
                    }
                }
            } else {
                assert(distinct_idx(self, froms, (k + 1) as nat) == pidx);
            }
            seen.push(st);
            k = k + 1;
        }
        out
    }
}

/// `n` spaces.
pub open spec fn spaces(n: nat) -> Seq<char> {
    Seq::new(n, |i: int| ' ')
}

impl AST {
    /// The type assignments of the first `k` assignments of module `m`, each on a line
    /// of its own.
    pub open spec fn type_assigns(&self, m: int, k: nat) -> Seq<char>
        decreases k,
    {
        if k == 0 || k > self.vec@[m].children@.len() {
            Seq::empty()
        } else {
            let a = self.child(m, k - 1) as int;
            self.type_assigns(m, (k - 1) as nat) + self.assign_name(a) + seq![' ', ':', ':', ' ']
                + tv_str(self.vec@[a].type_assignment->0@, false) + seq!['\n']
        }
    }

    /// How node `i` is written without the syntactic sugar and with the types of typed
    /// names and assignments.
    pub open spec fn desugar(&self, i: int) -> Seq<char>
        decreases self.measure(i), 1nat, 0nat,
    {
        if !(self.wf() && self.valid(i)) {
            Seq::empty()
        } else {
            proof { self.lemma_node(i); }
            let n = self.vec@[i];
            if n.t == ASTNodeType::Identifier {
                match n.type_assignment {
                    Some(t) => self.value_of(i) + seq![' ', ':', ':', ' '] + tv_str(t@, false),
                    None => self.value_of(i),
                }
            } else if n.t == ASTNodeType::Literal {
                self.value_of(i)
            } else if n.t == ASTNodeType::Application {
                let f = self.child(i, 0) as int;
                let x = self.child(i, 1) as int;
                let fs = if self.vec@[f].t == ASTNodeType::Abstraction { paren(self.desugar(f)) } else { self.desugar(f) };
                let xs = if self.vec@[x].t == ASTNodeType::Application || self.vec@[x].t == ASTNodeType::Abstraction {
                    paren(self.desugar(x))
                } else {
                    self.desugar(x)
                };
                fs + seq![' '] + xs
            } else if n.t == ASTNodeType::Assignment {
                let name = self.value_of(self.child(i, 0) as int);
                let type_str = match n.type_assignment {
                    Some(t) => name + seq![' ', ':', ':', ' '] + tv_str(t@, false) + seq!['\n'],
                    None => Seq::empty(),
                };
                type_str + name + seq![' ', '=', ' '] + self.desugar(self.child(i, 1) as int)
            } else if n.t == ASTNodeType::Module {
                trim(self.desugar_module(i, n.children@.len()))
            } else if n.t == ASTNodeType::Match {
                let s = seq!['m', 'a', 't', 'c', 'h', ' '] + self.desugar(self.child(i, 0) as int)
                    + self.desugar_cases(i, ((n.children@.len() - 1) / 2) as nat);
                s.drop_last()
            } else if n.t == ASTNodeType::Abstraction {
                seq!['\\'] + self.desugar(self.child(i, 0) as int) + seq![' ', '.', ' '] + self.desugar(self.child(i, 1) as int)
            } else {
                paren(self.desugar(self.child(i, 0) as int) + seq![',', ' '] + self.desugar(self.child(i, 1) as int))
            }
        }
    }

    pub open spec fn desugar_module(&self, i: int, k: nat) -> Seq<char>
        decreases self.measure(i), 0nat, k,
    {
        if k == 0 || !(self.wf() && self.valid(i)) || k > self.vec@[i].children@.len() {
            Seq::empty()
        } else {
            proof { self.lemma_node(i); }
            self.desugar_module(i, (k - 1) as nat) + self.desugar(self.child(i, k - 1) as int) + seq!['\n']
        }
    }

    pub open spec fn desugar_cases(&self, i: int, k: nat) -> Seq<char>
        decreases self.measure(i), 0nat, k,
    {
        if k == 0 || !(self.wf() && self.valid(i)) || 2 * k + 1 > self.vec@[i].children@.len() {
            Seq::empty()
        } else {
            proof { self.lemma_node(i); }
            self.desugar_cases(i, (k - 1) as nat) + seq![' ', '|', ' '] + self.desugar(self.child(i, 2 * k as int - 1) as int)
                + seq![' ', '-', '>', ' '] + self.desugar(self.child(i, 2 * k as int) as int) + seq!['\n']
        }
    }

    #[verifier::loop_isolation(false)]
    fn desugar_module_string(&self, node: usize) -> (r: String)
        requires
            self.wf(),
            node < self.vec@.len(),
            self.vec@[node as int].t == ASTNodeType::Module,
        ensures
            r@ == self.desugar(node as int),
        decreases self.measure(node as int), 0nat, 0nat,
    {
        proof { self.lemma_node(node as int); }
        let n = &self.vec[node];
        let mut s = String::new();
        let mut k: usize = 0;
        while k < n.children.len()
            invariant
                self.wf(),
                node < self.vec@.len(),
                *n == self.vec@[node as int],
                k <= n.children@.len(),
                s@ == self.desugar_module(node as int, k as nat),
            decreases n.children@.len() - k,
        {
            let c = self.to_string_desugar_and_type(n.children[k]);
            push_str(&mut s, c.as_str());
            push_char(&mut s, '\n');
            k = k + 1;
        }
        trim_string(&s)
    }

    #[verifier::loop_isolation(false)]
    fn desugar_match_string(&self, node: usize) -> (r: String)
        requires
            self.wf(),
            node < self.vec@.len(),
            self.vec@[node as int].t == ASTNodeType::Match,
        ensures
            r@ == self.desugar(node as int),
        decreases self.measure(node as int), 0nat, 0nat,
    {
        proof { self.lemma_node(node as int); }
        let n = &self.vec[node];
        let mut s = lit("match ");
        let u = self.to_string_desugar_and_type(n.children[0]);
        push_str(&mut s, u.as_str());
        proof { reveal_strlit("match "); }
        let ghost head = s@;
        let nc = (n.children.len() - 1) / 2;
        let mut k: usize = 0;
        while k < nc
            invariant
                self.wf(),
                node < self.vec@.len(),
                *n == self.vec@[node as int],
                n.children@.len() % 2 == 1,
                nc == (n.children@.len() - 1) / 2,
                k <= nc,
                s@ == head + self.desugar_cases(node as int, k as nat),
            decreases nc - k,
        {
            push_str(&mut s, " | ");
            let p = self.to_string_desugar_and_type(n.children[2 * k + 1]);
            push_str(&mut s, p.as_str());
            push_str(&mut s, " -> ");
            let e = self.to_string_desugar_and_type(n.children[2 * k + 2]);
            push_str(&mut s, e.as_str());
            push_char(&mut s, '\n');
            proof {
                reveal_strlit(" | ");
                reveal_strlit(" -> ");
            }
            k = k + 1;
            assert(s@ =~= head + self.desugar_cases(node as int, k as nat));
        }
        drop_last_char(s)
    }

    /// The type assignments of the assignments of module `module`, `name :: type` on a line
    /// each.
    pub fn type_assigns_to_string(&self, module: usize) -> (r: String)
        requires
            self.wf(),
            module < self.vec@.len(),
            self.vec@[module as int].t == ASTNodeType::Module,
            forall|k: int| 0 <= k < self.vec@[module as int].children@.len()
                ==> self.vec@[#[trigger] self.vec@[module as int].children@[k] as int].type_assignment is Some,
        ensures
            r@ == trim(self.type_assigns(module as int, self.vec@[module as int].children@.len())),
    {
        proof { self.lemma_node(module as int); }
        let cs = &self.vec[module].children;
        let mut s = String::new();
        let mut k: usize = 0;
        while k < cs.len()
            invariant
                self.wf(),
                module < self.vec@.len(),
                self.vec@[module as int].t == ASTNodeType::Module,
                *cs == self.vec@[module as int].children,
                forall|j: int| 0 <= j < cs@.len() ==> self.vec@[#[trigger] cs@[j] as int].type_assignment is Some,
                k <= cs@.len(),
                s@ == self.type_assigns(module as int, k as nat),
            decreases cs@.len() - k,
        {
            let a = cs[k];
            proof {
                self.lemma_node(module as int);
                assert(self.child_ok(module as int, cs@[k as int]));
            }
            let name = self.get_assignee(a);
            let t = match &self.vec[a].type_assignment {
                Some(t) => t.to_string(),
                None => String::new(),
            };
            push_str(&mut s, name.as_str());
            push_str(&mut s, " :: ");
            push_str(&mut s, t.as_str());
            push_char(&mut s, '\n');
            proof { reveal_strlit(" :: "); }
            k = k + 1;
        }
        trim_string(&s)
    }

    /// Node `node` written without the syntactic sugar, with the types of typed names and
    /// assignments (see `desugar`).
    #[verifier::loop_isolation(false)]
    pub fn to_string_desugar_and_type(&self, node: usize) -> (r: String)
        requires
            self.wf(),
            node < self.vec@.len(),
        ensures
            r@ == self.desugar(node as int),
        decreases self.measure(node as int), 1nat, 0nat,
    {
        proof { self.lemma_node(node as int); }
        let n = &self.vec[node];
        if n.t == ASTNodeType::Identifier {
            let mut s = n.get_value();
            match &n.type_assignment {
                Some(t) => {
                    push_str(&mut s, " :: ");
                    push_str(&mut s, t.to_string().as_str());
                    proof { reveal_strlit(" :: "); }
                },
                None => {},
            }
            s
        } else if n.t == ASTNodeType::Literal {
            n.get_value()
        } else if n.t == ASTNodeType::Application {
            let f = n.children[0];
            let x = n.children[1];
            let fs0 = self.to_string_desugar_and_type(f);
            let fs = if self.vec[f].t == ASTNodeType::Abstraction { paren_string(fs0) } else { fs0 };
            let xs0 = self.to_string_desugar_and_type(x);
            let xs = if self.vec[x].t == ASTNodeType::Application || self.vec[x].t == ASTNodeType::Abstraction {
                paren_string(xs0)
            } else {
                xs0
            };
            let mut s = fs;
            push_char(&mut s, ' ');
            push_str(&mut s, xs.as_str());
            s
        } else if n.t == ASTNodeType::Assignment {
            let id = n.children[0];
            proof { assert(self.node_ok(id as int)); }
            let name = self.vec[id].get_value();
            let mut s = String::new();
            match &n.type_assignment {
                Some(t) => {
                    push_str(&mut s, name.as_str());
                    push_str(&mut s, " :: ");
                    push_str(&mut s, t.to_string().as_str());
                    push_char(&mut s, '\n');
                },
                None => {},
            }
            push_str(&mut s, name.as_str());
            push_str(&mut s, " = ");
            let e = self.to_string_desugar_and_type(n.children[1]);
            push_str(&mut s, e.as_str());
            proof {
                reveal_strlit(" :: ");
                reveal_strlit(" = ");
            }
            s
        } else if n.t == ASTNodeType::Module {
            self.desugar_module_string(node)
        } else if n.t == ASTNodeType::Match {
            self.desugar_match_string(node)
        } else if n.t == ASTNodeType::Abstraction {
            let e = self.to_string_desugar_and_type(n.children[1]);
            let v = self.to_string_desugar_and_type(n.children[0]);
            let mut s = String::new();
            push_char(&mut s, '\\');
            push_str(&mut s, v.as_str());
            push_str(&mut s, " . ");
            push_str(&mut s, e.as_str());
            proof { reveal_strlit(" . "); }
            s
        } else {
            let a = self.to_string_desugar_and_type(n.children[0]);
            let b = self.to_string_desugar_and_type(n.children[1]);
            let mut s = String::new();
            push_str(&mut s, a.as_str());
            push_char(&mut s, ',');
            push_char(&mut s, ' ');
            push_str(&mut s, b.as_str());
            paren_string(s)
        }
    }
}

/// The string without its last character.
fn drop_last_char(s: String) -> (r: String)
    requires
        s@.len() > 0,
    ensures
        r@ == s@.drop_last(),
{
    let v = crate::text::chars_of(&s);
    let mut out = String::new();
    let mut k: usize = 0;
    while k < v.len() - 1
        invariant
            v@ == s@,
            v@.len() > 0,
            k < v@.len(),
            out@ == s@.subrange(0, k as int),
        decreases v@.len() - k,
    {
        push_char(&mut out, v[k]);
        k = k + 1;
        assert(out@ =~= s@.subrange(0, k as int));
    }
    assert(s@.drop_last() =~= s@.subrange(0, k as int));
    out
}

/// `n + 2`, staying at the largest `usize`.
pub open spec fn deeper(n: usize) -> usize {
    if n <= usize::MAX - 2 { (n + 2) as usize } else { usize::MAX }
}

impl AST {
    /// The text of node `i`'s token, empty where it has none.
    pub open spec fn name_of(&self, i: int) -> Seq<char> {
        match self.vec@[i].info {
            Some(tk) => tk.value@,
            None => Seq::empty(),
        }
    }

    /// The tree at node `i` as an outline: one node per line, its kind and name, indented
    /// by `ind` spaces and children two more.
    pub open spec fn outline(&self, i: int, ind: usize) -> Seq<char>
        decreases self.measure(i), 1nat, 0nat,
    {
        if !(self.wf() && self.valid(i)) {
            Seq::empty()
        } else {
            proof { self.lemma_node(i); }
            let n = self.vec@[i];
            let sp = spaces(ind as nat);
            let d = deeper(ind);
            if n.t == ASTNodeType::Identifier {
                sp + "Identifier: "@ + self.value_of(i)
            } else if n.t == ASTNodeType::Literal {
                sp + "Literal: "@ + self.value_of(i)
            } else if n.t == ASTNodeType::Application {
                sp + "Application\n"@ + self.outline(self.child(i, 0) as int, d) + seq!['\n'] + self.outline(self.child(i, 1) as int, d)
            } else if n.t == ASTNodeType::Assignment {
                sp + "Assignment: "@ + self.name_of(self.child(i, 0) as int) + seq!['\n'] + self.outline(self.child(i, 1) as int, d)
            } else if n.t == ASTNodeType::Abstraction {
                sp + "Abstraction: "@ + self.name_of(self.child(i, 0) as int) + seq!['\n'] + self.outline(self.child(i, 1) as int, d)
            } else if n.t == ASTNodeType::Pair {
                sp + "Pair: "@ + self.outline(self.child(i, 0) as int, d) + seq!['\n'] + self.outline(self.child(i, 1) as int, d)
            } else if n.t == ASTNodeType::Module {
                sp + "Module\n"@ + self.outline_children(i, d, n.children@.len())
            } else {
                sp + "Match\n"@ + self.outline_children(i, d, n.children@.len())
            }
        }
    }

    /// The outlines of the first `k` children of `i`, one after the other (each followed by
    /// a line break in a match).
    pub open spec fn outline_children(&self, i: int, ind: usize, k: nat) -> Seq<char>
        decreases self.measure(i), 0nat, k,
    {
        if k == 0 || !(self.wf() && self.valid(i)) || k > self.vec@[i].children@.len() {
            Seq::empty()
        } else {
            proof { self.lemma_node(i); }
            self.outline_children(i, ind, (k - 1) as nat) + self.outline(self.child(i, k - 1) as int, ind)
                + if self.vec@[i].t == ASTNodeType::Match { seq!['\n'] } else { Seq::empty() }
        }
    }

    /// The tree at `node` as an outline (see `outline`).
    pub fn display_string(&self, node: usize) -> (r: String)
        requires
            self.wf(),
            node < self.vec@.len(),
        ensures
            r@ == self.outline(node as int, 0),
    {
        self.to_string_indent(node, 0)
    }

    #[verifier::loop_isolation(false)]
    fn to_string_indent(&self, node: usize, ind: usize) -> (r: String)
        requires
            self.wf(),
            node < self.vec@.len(),
        ensures
            r@ == self.outline(node as int, ind),
        decreases self.measure(node as int), 1nat, 0nat,
    {
        proof { self.lemma_node(node as int); }
        let n = &self.vec[node];
        let d = if ind <= usize::MAX - 2 { ind + 2 } else { usize::MAX };
        let mut s = spaces_string(ind);
        if n.t == ASTNodeType::Identifier {
            push_str(&mut s, "Identifier: ");
            push_str(&mut s, n.get_value().as_str());
        } else if n.t == ASTNodeType::Literal {
            push_str(&mut s, "Literal: ");
            push_str(&mut s, n.get_value().as_str());
        } else if n.t == ASTNodeType::Application || n.t == ASTNodeType::Pair {
            if n.t == ASTNodeType::Application {
                push_str(&mut s, "Application\n");
            } else {
                push_str(&mut s, "Pair: ");
            }
            let a = self.to_string_indent(n.children[0], d);
            push_str(&mut s, a.as_str());
            push_char(&mut s, '\n');
            let b = self.to_string_indent(n.children[1], d);
            push_str(&mut s, b.as_str());
        } else if n.t == ASTNodeType::Assignment || n.t == ASTNodeType::Abstraction {
            if n.t == ASTNodeType::Assignment {
                push_str(&mut s, "Assignment: ");
            } else {
                push_str(&mut s, "Abstraction: ");
            }
            let id = n.children[0];
            proof { assert(self.node_ok(node as int)); assert(self.child_ok(node as int, n.children@[0])); }
            let name = if self.vec[id].info.is_some() { self.vec[id].get_value() } else { String::new() };
            push_str(&mut s, name.as_str());
            push_char(&mut s, '\n');
            let e = self.to_string_indent(n.children[1], d);
            push_str(&mut s, e.as_str());
        } else {
            if n.t == ASTNodeType::Module {
                push_str(&mut s, "Module\n");
            } else {
                push_str(&mut s, "Match\n");
            }
            let cs = self.outline_children_string(node, d);
            push_str(&mut s, cs.as_str());
        }
        s
    }

    #[verifier::loop_isolation(false)]
    fn outline_children_string(&self, node: usize, d: usize) -> (r: String)
        requires
            self.wf(),
            node < self.vec@.len(),
        ensures
            r@ == self.outline_children(node as int, d, self.vec@[node as int].children@.len()),
        decreases self.measure(node as int), 0nat, 0nat,
    {
        proof { self.lemma_node(node as int); }
        let n = &self.vec[node];
        let mut s = String::new();
        let mut k: usize = 0;
        while k < n.children.len()
            invariant
                self.wf(),
                node < self.vec@.len(),
                *n == self.vec@[node as int],
                k <= n.children@.len(),
                s@ == self.outline_children(node as int, d, k as nat),
            decreases n.children@.len() - k,
        {
            let c = self.to_string_indent(n.children[k], d);
            push_str(&mut s, c.as_str());
            if n.t == ASTNodeType::Match {
                push_char(&mut s, '\n');
            }
            k = k + 1;
            assert(s@ =~= self.outline_children(node as int, d, k as nat));
        }
        s
    }
}

/// `n` spaces.
fn spaces_string(n: usize) -> (r: String)
    ensures
        r@ == spaces(n as nat),
{
    let mut s = String::new();
    let mut k: usize = 0;
    while k < n
        invariant
            k <= n,
            s@ == spaces(k as nat),
        decreases n - k,
    {
        push_char(&mut s, ' ');
        k = k + 1;
        assert(s@ =~= spaces(k as nat));
    }
    s
}

} // verus!
