//! Matching an expression against the pattern of a match case.
use vstd::prelude::*;

use crate::ast::{is_expr_kind, ASTNodeType, AST};
use crate::text::{first_char, is_lower, is_upper, str_eq, unicode_uppercase};

verus! {

/// Name bindings: each name with the node it stands for.
pub type Bindings = Vec<(String, usize)>;

/// The outcome of a match as a mathematical value.
pub enum Outcome {
    Refute,
    Success(Seq<(Seq<char>, usize)>),
    Unknown,
}

/// The outcome of matching an expression against a pattern: it cannot match, it
/// matches with these bindings, or it cannot be told before the expression is reduced.
pub enum PatternMatchResult {
    Refute,
    Success(Bindings),
    Unknown,
}

/// The bindings with the names as character sequences.
pub open spec fn binds_view(v: Seq<(String, usize)>) -> Seq<(Seq<char>, usize)> {
    Seq::new(v.len(), |i: int| (v[i].0@, v[i].1))
}

impl PatternMatchResult {
    pub open spec fn outcome(&self) -> Outcome {
        match self {
            PatternMatchResult::Refute => Outcome::Refute,
            PatternMatchResult::Success(b) => Outcome::Success(binds_view(b@)),
            PatternMatchResult::Unknown => Outcome::Unknown,
        }
    }
}

/// No name is bound twice.
pub open spec fn keys_unique(m: Seq<(Seq<char>, usize)>) -> bool {
    forall|i: int, j: int| 0 <= i < j < m.len() ==> m[i].0 != m[j].0
}

/// Binds `k` to `v`, in place of an earlier binding of `k`.
pub open spec fn bind_insert(m: Seq<(Seq<char>, usize)>, k: Seq<char>, v: usize) -> Seq<(Seq<char>, usize)> {
    if exists|i: int| 0 <= i < m.len() && m[i].0 == k {
        let i = choose|i: int| 0 <= i < m.len() && m[i].0 == k;
        m.update(i, (k, v))
    } else {
        m.push((k, v))
    }
}

/// The bindings of `l` with those of `r` added in order, later ones taking the place of
/// earlier ones of the same name.
pub open spec fn bind_extend(l: Seq<(Seq<char>, usize)>, r: Seq<(Seq<char>, usize)>) -> Seq<(Seq<char>, usize)>
    decreases r.len(),
{
    if r.len() == 0 {
        l
    } else {
        bind_insert(bind_extend(l, r.drop_last()), r.last().0, r.last().1)
    }
}

/// How the results for the two halves of a compound pattern combine.
pub open spec fn combine(l: Outcome, r: Outcome) -> Outcome {
    match (l, r) {
        (Outcome::Success(a), Outcome::Success(b)) => Outcome::Success(bind_extend(a, b)),
        (Outcome::Unknown, _) => Outcome::Unknown,
        (_, Outcome::Unknown) => Outcome::Unknown,
        _ => Outcome::Refute,
    }
}

pub proof fn lemma_bind_insert_unique(m: Seq<(Seq<char>, usize)>, k: Seq<char>, v: usize)
    requires
        keys_unique(m),
    ensures
        keys_unique(bind_insert(m, k, v)),
        forall|i: int| 0 <= i < bind_insert(m, k, v).len() ==> {
            let p = #[trigger] bind_insert(m, k, v)[i];
            p.1 == v || exists|j: int| 0 <= j < m.len() && m[j].1 == p.1
        },
{
    if exists|i: int| 0 <= i < m.len() && m[i].0 == k {
        let i = choose|i: int| 0 <= i < m.len() && m[i].0 == k;
        let n = m.update(i, (k, v));
        assert forall|a: int| 0 <= a < n.len() implies {
            let p = #[trigger] n[a];
            p.1 == v || exists|j: int| 0 <= j < m.len() && m[j].1 == p.1
        } by {
            if a != i {
                assert(m[a].1 == n[a].1);
            }
        }
    } else {
        let n = m.push((k, v));
        assert forall|a: int| 0 <= a < n.len() implies {
            let p = #[trigger] n[a];
            p.1 == v || exists|j: int| 0 <= j < m.len() && m[j].1 == p.1
        } by {
            if a < m.len() {
                assert(m[a].1 == n[a].1);
            }
        }
    }
}

/// The nodes bound by `m` satisfy `ok`.
pub open spec fn binds_within(ast: &AST, m: Seq<(Seq<char>, usize)>) -> bool {
    forall|i: int| 0 <= i < m.len() ==> {
        let x = #[trigger] m[i].1 as int;
        &&& 0 <= x < ast.vec@.len()
        &&& is_expr_kind(ast.vec@[x].t)
    }
}

pub proof fn lemma_bind_extend(ast: &AST, l: Seq<(Seq<char>, usize)>, r: Seq<(Seq<char>, usize)>)
    requires
        keys_unique(l),
        binds_within(ast, l),
        binds_within(ast, r),
    ensures
        keys_unique(bind_extend(l, r)),
        binds_within(ast, bind_extend(l, r)),
    decreases r.len(),
{
    if r.len() > 0 {
        lemma_bind_extend(ast, l, r.drop_last());
        let m = bind_extend(l, r.drop_last());
        lemma_bind_insert_unique(m, r.last().0, r.last().1);
        let n = bind_insert(m, r.last().0, r.last().1);
        assert(r.last() == r[r.len() - 1]);
        assert forall|i: int| 0 <= i < n.len() implies {
            let x = #[trigger] n[i].1 as int;
            &&& 0 <= x < ast.vec@.len()
            &&& is_expr_kind(ast.vec@[x].t)
        } by {
            let p = n[i];
            if p.1 != r.last().1 {
                let j = choose|j: int| 0 <= j < m.len() && m[j].1 == p.1;
                assert(m[j].1 == p.1);
            }
        }
    }
}

/// The function at the head of nested applications at `e`.
pub open spec fn app_head(ast: &AST, e: int) -> int
    decreases ast.measure(e),
{
    if ast.wf() && ast.valid(e) && ast.vec@[e].t == ASTNodeType::Application {
        proof { ast.lemma_node(e); }
        app_head(ast, ast.child(e, 0) as int)
    } else {
        e
    }
}

/// Node `i` is an identifier that starts with an upper case letter (a constructor).
pub open spec fn upper_id(ast: &AST, i: int) -> bool {
    ast.vec@[i].t == ASTNodeType::Identifier && unicode_uppercase(ast.value_of(i)[0])
}

/// The application at `e` is headed by a constructor.
pub open spec fn head_upper(ast: &AST, e: int) -> bool {
    upper_id(ast, app_head(ast, e))
}

/// The patterns the language has: identifiers that start with a lower case letter (which
/// bind), `_`, or an upper case letter (constructors); literals; pairs and applications of
/// patterns.
pub open spec fn pattern_ok(ast: &AST, p: int) -> bool
    decreases ast.measure(p),
{
    if !(ast.wf() && ast.valid(p) && is_expr_kind(ast.vec@[p].t)) {
        false
    } else {
        proof { ast.lemma_node(p); }
        let n = ast.vec@[p];
        if n.t == ASTNodeType::Identifier {
            let c = ast.value_of(p)[0];
            is_lower(c) || c == '_' || is_upper(c)
        } else if n.t == ASTNodeType::Literal {
            true
        } else if n.t == ASTNodeType::Application || n.t == ASTNodeType::Pair {
            pattern_ok(ast, ast.child(p, 0) as int) && pattern_ok(ast, ast.child(p, 1) as int)
        } else {
            false
        }
    }
}

/// What matching the expression `e` against the pattern `p` gives.
pub open spec fn match_spec(ast: &AST, e: int, p: int) -> Outcome
    decreases ast.measure(p),
{
    if !(ast.wf() && ast.valid(p) && ast.valid(e) && is_expr_kind(ast.vec@[p].t)) {
        Outcome::Unknown
    } else {
        proof {
            ast.lemma_node(p);
        }
        let pt = ast.vec@[p].t;
        let et = ast.vec@[e].t;
        if pt == ASTNodeType::Identifier {
            let c = ast.value_of(p)[0];
            if is_lower(c) {
                Outcome::Success(seq![(ast.value_of(p), e as usize)])
            } else if c == '_' {
                Outcome::Success(Seq::empty())
            } else if et == ASTNodeType::Identifier {
                if is_upper(ast.value_of(e)[0]) {
                    if ast.value_of(e) == ast.value_of(p) {
                        Outcome::Success(Seq::empty())
                    } else {
                        Outcome::Refute
                    }
                } else {
                    Outcome::Unknown
                }
            } else if et == ASTNodeType::Application {
                if head_upper(ast, e) { Outcome::Refute } else { Outcome::Unknown }
            } else if et == ASTNodeType::Match {
                Outcome::Unknown
            } else {
                Outcome::Refute
            }
        } else if pt == ASTNodeType::Application {
            if et == ASTNodeType::Application {
                combine(
                    match_spec(ast, ast.child(e, 0) as int, ast.child(p, 0) as int),
                    match_spec(ast, ast.child(e, 1) as int, ast.child(p, 1) as int),
                )
            } else if et == ASTNodeType::Identifier {
                if upper_id(ast, e) { Outcome::Refute } else { Outcome::Unknown }
            } else if et == ASTNodeType::Match {
                Outcome::Unknown
            } else {
                Outcome::Refute
            }
        } else if pt == ASTNodeType::Pair {
            if et == ASTNodeType::Pair {
                combine(
                    match_spec(ast, ast.child(e, 0) as int, ast.child(p, 0) as int),
                    match_spec(ast, ast.child(e, 1) as int, ast.child(p, 1) as int),
                )
            } else if et == ASTNodeType::Application {
                if head_upper(ast, e) { Outcome::Refute } else { Outcome::Unknown }
            } else if et == ASTNodeType::Identifier {
                if upper_id(ast, e) { Outcome::Refute } else { Outcome::Unknown }
            } else if et == ASTNodeType::Match {
                Outcome::Unknown
            } else {
                Outcome::Refute
            }
        } else {
            if et == ASTNodeType::Literal {
                if ast.value_of(e) == ast.value_of(p) { Outcome::Success(Seq::empty()) } else { Outcome::Refute }
            } else if et == ASTNodeType::Application {
                if head_upper(ast, e) { Outcome::Refute } else { Outcome::Unknown }
            } else if et == ASTNodeType::Identifier {
                if upper_id(ast, e) { Outcome::Refute } else { Outcome::Unknown }
            } else if et == ASTNodeType::Match {
                Outcome::Unknown
            } else {
                Outcome::Refute
            }
        }
    }
}

impl AST {
    /// The function at the head of nested applications at `e`.
    pub fn get_app_head(&self, e: usize) -> (r: usize)
        requires
            self.wf(),
            e < self.vec@.len(),
        ensures
            r as int == app_head(self, e as int),
            r < self.vec@.len(),
        decreases self.measure(e as int),
    {
        if self.vec[e].t == ASTNodeType::Application {
            let f = self.get_func(e);
            proof { self.lemma_node(e as int); }
            self.get_app_head(f)
        } else {
            e
        }
    }
}

/// Adds the bindings of `r` to `l`, later ones taking the place of earlier ones of the
/// same name.
fn extend_bindings(l: &mut Bindings, r: Bindings)
    requires
        keys_unique(binds_view(old(l)@)),
    ensures
        binds_view(final(l)@) == bind_extend(binds_view(old(l)@), binds_view(r@)),
        keys_unique(binds_view(final(l)@)),
{
    let ghost l0 = binds_view(l@);
    let ghost rv = binds_view(r@);
    let mut j: usize = 0;
    while j < r.len()
        invariant
            j <= r@.len(),
            rv == binds_view(r@),
            binds_view(l@) == bind_extend(l0, rv.take(j as int)),
            keys_unique(binds_view(l@)),
        decreases r@.len() - j,
    {
        let (k, v) = (r[j].0.clone(), r[j].1);
        let ghost m = binds_view(l@);
        assert(rv.take(j + 1).drop_last() =~= rv.take(j as int));
        assert(rv.take(j + 1).last() == (k@, v));
        proof { lemma_bind_insert_unique(m, k@, v); }
        match crate::ast::position_of(l, &k) {
            Some(i) => {
                proof {
                    assert(m[i as int].0 == k@);
                    let c = choose|c: int| 0 <= c < m.len() && m[c].0 == k@;
                    assert(c == i);
                }
                l.set(i, (k, v));
                assert(binds_view(l@) =~= m.update(i as int, (k@, v)));
            },
            None => {
                proof {
                    assert forall|c: int| 0 <= c < m.len() implies m[c].0 != k@ by {
                        assert(m[c].0 == l@[c].0@);
                    }
                }
                l.push((k, v));
                assert(binds_view(l@) =~= m.push((k@, v)));
            },
        }
        j = j + 1;
    }
    assert(rv.take(r@.len() as int) =~= rv);
}

/// Combines the results for the two halves of a compound pattern.
fn combine_results(l: PatternMatchResult, r: PatternMatchResult) -> (res: PatternMatchResult)
    requires
        l.outcome() matches Outcome::Success(b) ==> keys_unique(b),
    ensures
        res.outcome() == combine(l.outcome(), r.outcome()),
{
    match (l, r) {
        (PatternMatchResult::Success(mut a), PatternMatchResult::Success(b)) => {
            extend_bindings(&mut a, b);
            PatternMatchResult::Success(a)
        },
        (PatternMatchResult::Unknown, _) => PatternMatchResult::Unknown,
        (_, PatternMatchResult::Unknown) => PatternMatchResult::Unknown,
        _ => PatternMatchResult::Refute,
    }
}

/// Whether node `i` is a constructor (identifier starting with an upper case letter).
fn node_is_upper(ast: &AST, i: usize) -> (r: bool)
    requires
        ast.wf(),
        i < ast.vec@.len(),
    ensures
        r == upper_id(ast, i as int),
{
    proof { ast.lemma_node(i as int); }
    ast.vec[i].is_uppercase()
}

/// Matches the expression `expr` against the pattern `pattern`: `Success` with the
/// bindings of the pattern's variables where it matches, `Refute` where it cannot match
/// whatever the expression reduces to, `Unknown` where that depends on reducing it.
pub fn pattern_match(ast: &AST, expr: usize, pattern: usize) -> (r: PatternMatchResult)
    requires
        ast.wf(),
        expr < ast.vec@.len(),
        is_expr_kind(ast.vec@[expr as int].t),
        pattern_ok(ast, pattern as int),
    ensures
        r.outcome() == match_spec(ast, expr as int, pattern as int),
        r.outcome() matches Outcome::Success(b) ==> keys_unique(b) && binds_within(ast, b),
    decreases ast.measure(pattern as int),
{
    proof {
        ast.lemma_node(pattern as int);
        ast.lemma_node(expr as int);
    }
    let pn = &ast.vec[pattern];
    let en = &ast.vec[expr];
    let pt = pn.t;
    let et = en.t;
    if pt == ASTNodeType::Identifier {
        let pv = pn.get_value();
        let c = match first_char(&pv) {
            Some(c) => c,
            None => ' ',
        };
        if 'a' <= c && c <= 'z' {
            let mut m: Bindings = Vec::new();
            m.push((pv, expr));
            proof {
                assert(binds_view(m@) =~= seq![(ast.value_of(pattern as int), expr)]);
            }
            return PatternMatchResult::Success(m);
        } else if c == '_' {
            let m: Bindings = Vec::new();
            assert(binds_view(m@) =~= Seq::empty());
            return PatternMatchResult::Success(m);
        } else if et == ASTNodeType::Identifier {
            let ev = en.get_value();
            let ec = match first_char(&ev) {
                Some(c) => c,
                None => ' ',
            };
            if 'A' <= ec && ec <= 'Z' {
                if str_eq(&ev, &pv) {
                    let m: Bindings = Vec::new();
                    assert(binds_view(m@) =~= Seq::empty());
                    PatternMatchResult::Success(m)
                } else {
                    PatternMatchResult::Refute
                }
            } else {
                PatternMatchResult::Unknown
            }
        } else if et == ASTNodeType::Application {
            let h = ast.get_app_head(expr);
            if node_is_upper(ast, h) { PatternMatchResult::Refute } else { PatternMatchResult::Unknown }
        } else if et == ASTNodeType::Match {
            PatternMatchResult::Unknown
        } else {
            PatternMatchResult::Refute
        }
    } else if pt == ASTNodeType::Application || pt == ASTNodeType::Pair {
        if et == pt {
            let l = pattern_match(ast, en.children[0], pn.children[0]);
            let r = pattern_match(ast, en.children[1], pn.children[1]);
            let ghost lo = l.outcome();
            let ghost ro = r.outcome();
            let res = combine_results(l, r);
            proof {
                if let Outcome::Success(a) = lo {
                    if let Outcome::Success(b) = ro {
                        lemma_bind_extend(ast, a, b);
                    }
                }
            }
            res
        } else if et == ASTNodeType::Application {
            let h = ast.get_app_head(expr);
            if node_is_upper(ast, h) { PatternMatchResult::Refute } else { PatternMatchResult::Unknown }
        } else if et == ASTNodeType::Identifier {
            if node_is_upper(ast, expr) { PatternMatchResult::Refute } else { PatternMatchResult::Unknown }
        } else if et == ASTNodeType::Match {
            PatternMatchResult::Unknown
        } else {
            PatternMatchResult::Refute
        }
    } else {
        if et == ASTNodeType::Literal {
            let ev = en.get_value();
            let pv = pn.get_value();
            if str_eq(&ev, &pv) {
                let m: Bindings = Vec::new();
                assert(binds_view(m@) =~= Seq::empty());
                PatternMatchResult::Success(m)
            } else {
                PatternMatchResult::Refute
            }
        } else if et == ASTNodeType::Application {
            let h = ast.get_app_head(expr);
            if node_is_upper(ast, h) { PatternMatchResult::Refute } else { PatternMatchResult::Unknown }
        } else if et == ASTNodeType::Identifier {
            if node_is_upper(ast, expr) { PatternMatchResult::Refute } else { PatternMatchResult::Unknown }
        } else if et == ASTNodeType::Match {
            PatternMatchResult::Unknown
        } else {
            PatternMatchResult::Refute
        }
    }
}

} // verus!
