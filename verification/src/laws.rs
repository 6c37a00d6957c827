//! Properties that hold across the operations of the library.
use vstd::prelude::*;

use crate::ast::{is_expr_kind, ASTNodeType, AST};
use crate::context::{
    abe_items, ctx_add_before_existential, ctx_append, ctx_before_assignment, ctx_before_item, ctx_existential, ctx_set_existential, first_where,
    ctx_subst, is_existential, max_exid, max_usize, set_item, CtxV, ItemV,
};
use crate::labels::LabelTable;
use crate::output::{trim, trim_end, trim_start};
use crate::pattern::{match_spec, Outcome};
use crate::redex::{all_froms, single_from};
use crate::term::{beta, first_wins, has_free, lemma_subst_not_free, subst, Term};
use crate::text::{is_lower, spec_is_whitespace};
use crate::token::TokenType;
use crate::checker::{labels_context, sub_spec};
use crate::types::{names_has, spec_num_id, tv_contains_existential, Primitive, tv_fa, tv_foralls, tv_strip_foralls, upper_digits, TypeV};

verus! {

/// A type is its outer quantified variables put back around the rest of it: quantifying
/// `strip_foralls(t)` over `get_foralls(t)` gives `t`.
pub proof fn law_foralls_round_trip(t: TypeV)
    ensures
        tv_fa(tv_foralls(t), tv_strip_foralls(t)) == t,
    decreases t,
{
    match t {
        TypeV::Forall(v, b) => {
            law_foralls_round_trip(*b);
            let vs = tv_foralls(t);
            assert(vs == seq![v] + tv_foralls(*b));
            assert(vs.drop_first() =~= tv_foralls(*b));
        },
        _ => {},
    }
}

/// The redex that one step contracts is the first of all the redexes found in the
/// expression, and one step finds a redex exactly when there is any.
pub proof fn law_single_redex_among_all(ast: &AST, lt: &LabelTable, module: Option<usize>, e: int)
    requires
        ast.wf(),
        ast.valid(e),
    ensures
        single_from(ast, lt, module, e) matches Some(x) ==> all_froms(ast, lt, module, e).contains(x),
        single_from(ast, lt, module, e) matches Some(x) ==> all_froms(ast, lt, module, e)[0] == x,
        single_from(ast, lt, module, e) is None <==> all_froms(ast, lt, module, e).len() == 0,
    decreases ast.measure(e),
{
    ast.lemma_node(e);
    let t = ast.vec@[e].t;
    if t == ASTNodeType::Application || t == ASTNodeType::Pair {
        let f = ast.child(e, 0) as int;
        let x = ast.child(e, 1) as int;
        law_single_redex_among_all(ast, lt, module, f);
        law_single_redex_among_all(ast, lt, module, x);
        let own: Seq<usize> = if t == ASTNodeType::Application && crate::redex::valid_call(ast, lt, module, e) is Some {
            seq![e as usize]
        } else {
            Seq::empty()
        };
        let all = all_froms(ast, lt, module, e);
        let af = all_froms(ast, lt, module, f);
        let ax = all_froms(ast, lt, module, x);
        assert(all =~= own + af + ax);
        match single_from(ast, lt, module, e) {
            Some(y) => {
                if own.len() > 0 && y == e as usize {
                    assert(all[0] == y);
                } else if single_from(ast, lt, module, f) == Some(y) {
                    let k = choose|k: int| 0 <= k < af.len() && af[k] == y;
                    assert(all[own.len() + k] == y);
                    assert(own.len() == 0);
                    assert(all[0] == af[0]);
                } else {
                    let k = choose|k: int| 0 <= k < ax.len() && ax[k] == y;
                    assert(all[own.len() + af.len() + k] == y);
                    assert(own.len() == 0 && af.len() == 0);
                    assert(all[0] == ax[0]);
                }
            },
            None => {},
        }
    } else if t == ASTNodeType::Identifier || t == ASTNodeType::Match {
        match single_from(ast, lt, module, e) {
            Some(y) => {
                assert(all_froms(ast, lt, module, e) =~= seq![y]);
                assert(all_froms(ast, lt, module, e)[0] == y);
            },
            None => {},
        }
    }
}

/// Where no item of `s` from `k` on satisfies `p` and `it` does, the first item of
/// `s.push(it)` from `k` on that satisfies `p` is `it`.
pub proof fn lemma_first_where_absent(s: Seq<ItemV>, it: ItemV, p: spec_fn(ItemV) -> bool, k: nat)
    requires
        k <= s.len(),
        p(it),
        forall|i: int| k <= i < s.len() ==> !p(s[i]),
    ensures
        first_where(s.push(it), p, k) == s.len(),
    decreases s.len() - k,
{
    if k < s.len() {
        assert(s.push(it)[k as int] == s[k as int]);
        lemma_first_where_absent(s, it, p, k + 1);
    } else {
        assert(s.push(it)[k as int] == it);
    }
}

/// A scope opened by adding an item that is not yet in the context closes back to the
/// context before it: cutting the context at that item gives the old items.
pub proof fn law_scope_closes(c: CtxV, it: ItemV)
    requires
        !c.items.contains(it),
    ensures
        ctx_before_item(ctx_append(c, it), it).items == c.items,
{
    let p = |x: ItemV| crate::context::same_item(x, it);
    assert forall|i: int| 0 <= i < c.items.len() implies !p(c.items[i]) by {
        if c.items[i] == it {
            assert(c.items.contains(it));
        }
    }
    lemma_first_where_absent(c.items, it, p, 0);
    let d = ctx_append(c, it);
    assert(d.items == c.items.push(it));
    assert(ctx_before_item(d, it).items == d.items.take(first_where(d.items, p, 0) as int));
    assert(c.items.push(it).take(c.items.len() as int) =~= c.items);
}

/// Solving an existential moves no item and leaves every item the existential of the same
/// identifier it was.
pub proof fn lemma_first_where_set(s: Seq<ItemV>, ex: usize, t: TypeV, p: spec_fn(ItemV) -> bool, k: nat)
    requires
        k <= s.len(),
        forall|x: ItemV| #[trigger] p(x) == is_existential(x, ex),
    ensures
        first_where(Seq::new(s.len(), |i: int| set_item(s[i], ex, t)), p, k) == first_where(s, p, k),
    decreases s.len() - k,
{
    let n = Seq::new(s.len(), |i: int| set_item(s[i], ex, t));
    if k < s.len() {
        assert(n[k as int] == set_item(s[k as int], ex, t));
        assert(p(n[k as int]) == p(s[k as int]));
        lemma_first_where_set(s, ex, t, p, k + 1);
    }
}

/// An existential of the context that is not defined as another existential reads back
/// as `t` once it is solved as `t`.
pub proof fn law_solved_existential_reads_back(c: CtxV, ex: usize, t: TypeV)
    requires
        ctx_existential(c.items, ex) is Some,
        !(ctx_existential(c.items, ex) matches Some(Some(TypeV::Existential(e2))) && e2 != ex as nat),
    ensures
        ctx_existential(ctx_set_existential(c, ex, t).items, ex) == Some(Some(t)),
{
    let p = |x: ItemV| is_existential(x, ex);
    lemma_first_where_set(c.items, ex, t, p, 0);
    let n = ctx_set_existential(c, ex, t).items;
    assert(n == Seq::new(c.items.len(), |i: int| set_item(c.items[i], ex, t)));
    let k = first_where(c.items, p, 0);
    assert(ctx_existential(c.items, ex) == (if k < c.items.len() {
        match c.items[k as int] {
            ItemV::Existential(_, o) => Some(o),
            _ => None,
        }
    } else {
        None
    }));
    assert(ctx_existential(n, ex) == (if k < n.len() {
        match n[k as int] {
            ItemV::Existential(_, o) => Some(o),
            _ => None,
        }
    } else {
        None
    }));
    lemma_first_where_sat(c.items, p, 0);
}

/// The item found by `first_where` satisfies the predicate.
pub proof fn lemma_first_where_sat(s: Seq<ItemV>, p: spec_fn(ItemV) -> bool, k: nat)
    ensures
        first_where(s, p, k) < s.len() ==> p(s[first_where(s, p, k) as int]),
        first_where(s, p, k) >= k || k > s.len(),
    decreases s.len() - k,
{
    if k < s.len() && !p(s[k as int]) {
        lemma_first_where_sat(s, p, k + 1);
    }
}

/// Pattern matching: a pattern that is a lower case name matches every expression and
/// binds the name to it; the pattern `_` matches every expression and binds nothing.
pub proof fn law_variable_patterns_match(ast: &AST, e: int, p: int)
    requires
        ast.wf(),
        ast.valid(e),
        ast.valid(p),
        ast.vec@[p].t == ASTNodeType::Identifier,
    ensures
        is_lower(ast.value_of(p)[0]) ==> match_spec(ast, e, p) == Outcome::Success(seq![(ast.value_of(p), e as usize)]),
        ast.value_of(p)[0] == '_' ==> match_spec(ast, e, p) == Outcome::Success(Seq::empty()),
{
    ast.lemma_node(p);
}

proof fn lemma_trim_end_idem(s: Seq<char>)
    ensures
        trim_end(trim_end(s)) == trim_end(s),
    decreases s.len(),
{
    if s.len() > 0 && spec_is_whitespace(s.last()) {
        lemma_trim_end_idem(s.drop_last());
    }
}

proof fn lemma_trim_end_keeps_first(s: Seq<char>)
    requires
        s.len() > 0,
        !spec_is_whitespace(s[0]),
    ensures
        trim_end(s).len() > 0,
        trim_end(s)[0] == s[0],
    decreases s.len(),
{
    if spec_is_whitespace(s.last()) {
        assert(s.len() > 1);
        assert(s.drop_last()[0] == s[0]);
        lemma_trim_end_keeps_first(s.drop_last());
    }
}

proof fn lemma_trim_start_done(s: Seq<char>)
    ensures
        trim_start(s).len() == 0 || !spec_is_whitespace(trim_start(s)[0]),
    decreases s.len(),
{
    if s.len() > 0 && spec_is_whitespace(s[0]) {
        lemma_trim_start_done(s.drop_first());
    }
}

/// Trimming a trimmed text changes nothing.
pub proof fn law_trim_idempotent(s: Seq<char>)
    ensures
        trim(trim(s)) == trim(s),
{
    let a = trim_start(s);
    lemma_trim_start_done(s);
    let b = trim_end(a);
    if a.len() > 0 {
        lemma_trim_end_keeps_first(a);
        assert(trim_start(b) == b);
    } else {
        assert(b == a);
    }
    lemma_trim_end_idem(a);
}

/// Binding a name and then unbinding it (`BoundChecker::add_binding`, then
/// `BoundChecker::remove_binding`) leaves the name unbound and every other name as it was.
pub proof fn law_bind_then_unbind(before: Set<Seq<char>>, name: Seq<char>)
    ensures
        before.insert(name).remove(name) == before.remove(name),
        forall|s: Seq<char>| s != name ==> (before.insert(name).remove(name).contains(s) <==> before.contains(s)),
{
    assert(before.insert(name).remove(name) =~= before.remove(name));
}

/// A type built from type variables, primitives, the unit type, functions, products,
/// unions and aliases only (no existentials or quantifiers).
pub open spec fn plain_type(t: TypeV) -> bool
    decreases t, 0nat,
{
    match t {
        TypeV::Function(a, b) => plain_type(*a) && plain_type(*b),
        TypeV::Product(a, b) => plain_type(*a) && plain_type(*b),
        TypeV::Union(_, s) => plain_seq(s, s.len()),
        TypeV::Existential(_) => false,
        TypeV::Forall(_, _) => false,
        TypeV::Alias(_, x) => plain_type(*x),
        _ => true,
    }
}

pub open spec fn plain_seq(s: Seq<TypeV>, k: nat) -> bool
    decreases s, k,
{
    if k == 0 || k > s.len() {
        true
    } else {
        plain_seq(s, (k - 1) as nat) && plain_type(s[k - 1])
    }
}

/// How deeply the constructors of a type nest.
pub open spec fn type_depth(t: TypeV) -> nat
    decreases t, 0nat,
{
    match t {
        TypeV::Function(a, b) => 1 + if type_depth(*a) > type_depth(*b) { type_depth(*a) } else { type_depth(*b) },
        TypeV::Product(a, b) => 1 + if type_depth(*a) > type_depth(*b) { type_depth(*a) } else { type_depth(*b) },
        TypeV::Union(_, s) => 1 + seq_depth(s, s.len()),
        TypeV::Alias(_, x) => 2 + type_depth(*x),
        _ => 1,
    }
}

pub open spec fn seq_depth(s: Seq<TypeV>, k: nat) -> nat
    decreases s, k,
{
    if k == 0 || k > s.len() {
        0
    } else {
        let a = seq_depth(s, (k - 1) as nat);
        let b = type_depth(s[k - 1]);
        if a > b { a } else { b }
    }
}

proof fn lemma_plain_seq_at(s: Seq<TypeV>, k: nat, i: int)
    requires
        plain_seq(s, k),
        0 <= i < k <= s.len(),
    ensures
        plain_type(s[i]),
        type_depth(s[i]) <= seq_depth(s, k),
    decreases k,
{
    if i < k - 1 {
        lemma_plain_seq_at(s, (k - 1) as nat, i);
    }
}

proof fn lemma_seq_depth_at(s: Seq<TypeV>, k: nat, i: int)
    requires
        0 <= i < k <= s.len(),
    ensures
        type_depth(s[i]) <= seq_depth(s, k),
    decreases k,
{
    if i < k - 1 {
        lemma_seq_depth_at(s, (k - 1) as nat, i);
    }
}

/// A plain type has no existential to substitute.
pub proof fn lemma_subst_plain(items: Seq<ItemV>, t: TypeV, fuel: nat)
    requires
        plain_type(t),
    ensures
        crate::context::subst(items, t, fuel) == t,
    decreases t, 0nat,
{
    match t {
        TypeV::Function(a, b) => {
            lemma_subst_plain(items, *a, fuel);
            lemma_subst_plain(items, *b, fuel);
        },
        TypeV::Product(a, b) => {
            lemma_subst_plain(items, *a, fuel);
            lemma_subst_plain(items, *b, fuel);
        },
        TypeV::Union(n, sq) => {
            lemma_subst_seq_plain(items, sq, fuel, sq.len());
            assert(crate::context::subst_seq(items, sq, fuel, sq.len()) =~= sq.take(sq.len() as int));
            assert(sq.take(sq.len() as int) =~= sq);
        },
        _ => {},
    }
}

proof fn lemma_subst_seq_plain(items: Seq<ItemV>, s: Seq<TypeV>, fuel: nat, k: nat)
    requires
        plain_seq(s, s.len()),
        k <= s.len(),
    ensures
        crate::context::subst_seq(items, s, fuel, k) == s.take(k as int),
    decreases s, k,
{
    if k > 0 {
        lemma_subst_seq_plain(items, s, fuel, (k - 1) as nat);
        lemma_plain_seq_at(s, s.len(), k - 1);
        lemma_subst_plain(items, s[k - 1], fuel);
        assert(s.take(k as int) =~= s.take(k - 1).push(s[k - 1]));
    } else {
        assert(s.take(0) =~= Seq::<TypeV>::empty());
    }
}

/// `t` without the aliases around it.
pub open spec fn top_alias(t: TypeV) -> TypeV
    decreases t,
{
    match t {
        TypeV::Alias(_, x) => top_alias(*x),
        _ => t,
    }
}

/// The number of aliases around `t`.
pub open spec fn alias_count(t: TypeV) -> nat
    decreases t,
{
    match t {
        TypeV::Alias(_, x) => 1 + alias_count(*x),
        _ => 0,
    }
}

proof fn lemma_top_alias(t: TypeV)
    requires
        plain_type(t),
    ensures
        plain_type(top_alias(t)),
        !(top_alias(t) is Alias),
        type_depth(t) == 2 * alias_count(t) + type_depth(top_alias(t)),
    decreases t,
{
    if let TypeV::Alias(_, x) = t {
        lemma_top_alias(*x);
    }
}

/// Subtyping looks through the aliases around its first type.
proof fn lemma_unwrap_left(c: CtxV, a: TypeV, b: TypeV, f: nat)
    requires
        f >= alias_count(a),
    ensures
        crate::checker::sub_spec(c, a, b, f) == crate::checker::sub_spec(c, top_alias(a), b, (f - alias_count(a)) as nat),
    decreases a,
{
    if let TypeV::Alias(_, x) = a {
        lemma_unwrap_left(c, *x, b, (f - 1) as nat);
    }
}

/// Subtyping looks through the aliases around its second type, the first being no alias.
proof fn lemma_unwrap_right(c: CtxV, a: TypeV, b: TypeV, f: nat)
    requires
        !(a is Alias),
        f >= alias_count(b),
    ensures
        crate::checker::sub_spec(c, a, b, f) == crate::checker::sub_spec(c, a, top_alias(b), (f - alias_count(b)) as nat),
    decreases b,
{
    if let TypeV::Alias(_, y) = b {
        lemma_unwrap_right(c, a, *y, (f - 1) as nat);
    }
}

/// Subtyping is reflexive on types without existentials or quantifiers: such a type is a
/// subtype of itself and the context stays as it is, given steps enough for the depth of
/// the type (an alias counting twice).
pub proof fn law_subtype_reflexive(c: CtxV, t: TypeV, f: nat)
    requires
        plain_type(t),
        f >= type_depth(t),
    ensures
        crate::checker::sub_spec(c, t, t, f) == Some(c),
    decreases type_depth(t), 0nat,
{
    if t is Alias {
        lemma_top_alias(t);
        let k = alias_count(t);
        let z = top_alias(t);
        lemma_unwrap_left(c, t, t, f);
        lemma_unwrap_right(c, z, t, (f - k) as nat);
        law_subtype_reflexive(c, z, (f - 2 * k) as nat);
    } else {
        match t {
            TypeV::Function(a, b) => {
                law_subtype_reflexive(c, *a, (f - 1) as nat);
                lemma_subst_plain(c.items, *b, c.items.len());
                law_subtype_reflexive(c, *b, (f - 1) as nat);
            },
            TypeV::Product(a, b) => {
                law_subtype_reflexive(c, *a, (f - 1) as nat);
                law_subtype_reflexive(c, *b, (f - 1) as nat);
            },
            TypeV::Union(n, sq) => {
                lemma_sub_seq_reflexive(c, sq, sq.len(), (f - 1) as nat);
            },
            _ => {},
        }
    }
}

proof fn lemma_sub_seq_reflexive(c: CtxV, s: Seq<TypeV>, k: nat, f: nat)
    requires
        plain_seq(s, s.len()),
        k <= s.len(),
        f >= seq_depth(s, s.len()),
    ensures
        crate::checker::sub_seq(c, s, s, k, f) == Some(c),
    decreases seq_depth(s, s.len()), k,
{
    if k > 0 {
        lemma_sub_seq_reflexive(c, s, (k - 1) as nat, f);
        lemma_plain_seq_at(s, s.len(), k - 1);
        law_subtype_reflexive(c, s[k - 1], f);
    }
}

/// Substituting nothing leaves an expression as it is.
pub proof fn law_subst_nothing(t: Term)
    ensures
        subst(t, Map::empty()) == t,
{
    lemma_subst_not_free(t, Map::empty());
}

/// An abstraction whose variable does not occur free in its body gives that body, whatever
/// it is applied to (as `do_abst_subst` contracts it).
pub proof fn law_unused_variable_ignored(tt: TokenType, x: Seq<char>, body: Term, s: Term, w: bool, fy: bool)
    requires
        !has_free(body, x),
    ensures
        beta(Term::Abs(Box::new(Term::Id(tt, x)), Box::new(body), w, fy), s) == body,
{
    let b = seq![(x, s)];
    assert(b.drop_last() =~= Seq::<(Seq<char>, Term)>::empty());
    assert(first_wins(b.drop_last()) =~= Map::<Seq<char>, Term>::empty());
    assert(first_wins(b) =~= map![x => s]);
    lemma_subst_not_free(body, map![x => s]);
}

/// The identity abstraction `\x. x` gives its argument.
pub proof fn law_identity_gives_argument(tt: TokenType, tt2: TokenType, x: Seq<char>, s: Term, w: bool, fy: bool)
    ensures
        beta(Term::Abs(Box::new(Term::Id(tt, x)), Box::new(Term::Id(tt2, x)), w, fy), s) == s,
{
    let b = seq![(x, s)];
    assert(b.drop_last() =~= Seq::<(Seq<char>, Term)>::empty());
    assert(first_wins(b.drop_last()) =~= Map::<Seq<char>, Term>::empty());
    assert(first_wins(b) =~= map![x => s]);
}

/// The names of existentials (`Type::num_identifier_to_str`) below 676 are made of lower
/// case letters, have one letter exactly below 26 (the letter counted from `a`), and two
/// different numbers have two different names.
pub proof fn law_num_id(n: nat, m: nat)
    requires
        n < 676,
        m < 676,
    ensures
        forall|i: int| 0 <= i < spec_num_id(n).len() ==> 'a' <= #[trigger] spec_num_id(n)[i] <= 'z',
        spec_num_id(n).len() == 1 <==> n < 26,
        n < 26 ==> spec_num_id(n) == seq![((97 + n) as u32) as char],
        m != n ==> spec_num_id(m) != spec_num_id(n),
{
    lemma_num_id_shape(n);
    lemma_num_id_shape(m);
    if m != n && spec_num_id(m) == spec_num_id(n) {
        if n < 26 && m < 26 {
            assert(spec_num_id(m)[0] == spec_num_id(n)[0]);
        } else if n >= 26 && m >= 26 {
            assert(spec_num_id(m)[0] == spec_num_id(n)[0]);
            assert(spec_num_id(m)[1] == spec_num_id(n)[1]);
            assert(n / 26 == m / 26);
            assert(n % 26 == m % 26);
        }
    }
}

/// The letters of the name of `n < 676`.
proof fn lemma_num_id_shape(n: nat)
    requires
        n < 676,
    ensures
        n < 26 ==> spec_num_id(n) == seq![((97 + n) as u32) as char],
        n >= 26 ==> spec_num_id(n) == seq![((96 + n / 26) as u32) as char, ((97 + n % 26) as u32) as char],
        n < 26 ==> (spec_num_id(n)[0] as int) == 97 + n,
        n >= 26 ==> (spec_num_id(n)[0] as int) == 96 + n / 26 && (spec_num_id(n)[1] as int) == 97 + n % 26,
{
    reveal_with_fuel(upper_digits, 3);
    let q = n / 26;
    if n < 26 {
        assert(q == 0);
        assert(upper_digits(q) =~= Seq::<char>::empty());
        assert(spec_num_id(n) =~= seq![((97 + n) as u32) as char]);
    } else {
        assert(0 < q < 26);
        assert(q / 26 == 0);
        assert(q % 26 == q);
        assert(upper_digits(q) =~= seq![((96 + q) as u32) as char]);
        assert(spec_num_id(n) =~= seq![((96 + n / 26) as u32) as char, ((97 + n % 26) as u32) as char]);
    }
}

/// Comparing expressions (`AST::expr_eq`) is reflexive on expression nodes.
pub proof fn law_expr_eq_reflexive(ast: &AST, n: int)
    requires
        ast.wf(),
        ast.valid(n),
        is_expr_kind(ast.vec@[n].t),
    ensures
        ast.same_expr(n, n),
    decreases ast.measure(n), 1nat, 0nat,
{
    ast.lemma_node(n);
    let k = ast.vec@[n].children@.len();
    if ast.vec@[n].t != ASTNodeType::Identifier && ast.vec@[n].t != ASTNodeType::Literal {
        lemma_same_children_reflexive(ast, n, k);
    }
}

proof fn lemma_same_children_reflexive(ast: &AST, n: int, k: nat)
    requires
        ast.wf(),
        ast.valid(n),
        is_expr_kind(ast.vec@[n].t),
        k <= ast.vec@[n].children@.len(),
    ensures
        ast.same_children(n, n, k),
    decreases ast.measure(n), 0nat, k,
{
    if k > 0 {
        ast.lemma_node(n);
        lemma_same_children_reflexive(ast, n, (k - 1) as nat);
        law_expr_eq_reflexive(ast, ast.child(n, k - 1) as int);
    }
}

/// Comparing expressions is symmetric; nodes of different kinds (an identifier and a
/// literal of the same text among them) are never alike; two applications are alike
/// exactly when their functions are and their arguments are.
pub proof fn law_expr_eq_symmetric(ast: &AST, n1: int, n2: int)
    requires
        ast.wf(),
        ast.valid(n1),
        ast.valid(n2),
    ensures
        ast.same_expr(n1, n2) == ast.same_expr(n2, n1),
        ast.vec@[n1].t != ast.vec@[n2].t ==> !ast.same_expr(n1, n2),
        ast.vec@[n1].t == ASTNodeType::Application && ast.vec@[n2].t == ASTNodeType::Application ==> (ast.same_expr(n1, n2) <==> (
            ast.same_expr(ast.child(n1, 0) as int, ast.child(n2, 0) as int) && ast.same_expr(ast.child(n1, 1) as int, ast.child(n2, 1) as int))),
    decreases ast.measure(n1), 1nat, 0nat,
{
    ast.lemma_node(n1);
    ast.lemma_node(n2);
    let a = ast.vec@[n1];
    let b = ast.vec@[n2];
    if a.t == b.t && (a.t == ASTNodeType::Application || a.t == ASTNodeType::Abstraction || a.t == ASTNodeType::Pair || a.t == ASTNodeType::Match) {
        let m = if a.children@.len() < b.children@.len() { a.children@.len() } else { b.children@.len() };
        lemma_same_children_symmetric(ast, n1, n2, m);
        if a.t == ASTNodeType::Application {
            reveal_with_fuel(AST::same_children, 3);
        }
    }
}

proof fn lemma_same_children_symmetric(ast: &AST, n1: int, n2: int, k: nat)
    requires
        ast.wf(),
        ast.valid(n1),
        ast.valid(n2),
    ensures
        ast.same_children(n1, n2, k) == ast.same_children(n2, n1, k),
    decreases ast.measure(n1), 0nat, k,
{
    if k > 0 && k <= ast.vec@[n1].children@.len() && k <= ast.vec@[n2].children@.len() {
        ast.lemma_node(n1);
        ast.lemma_node(n2);
        lemma_same_children_symmetric(ast, n1, n2, (k - 1) as nat);
        law_expr_eq_symmetric(ast, ast.child(n1, k - 1) as int, ast.child(n2, k - 1) as int);
    }
}

/// An existential occurs in a type exactly where it occurs in the type the aliases
/// around it stand for.
proof fn lemma_contains_top(b: TypeV, e: nat)
    ensures
        tv_contains_existential(b, e) == tv_contains_existential(top_alias(b), e),
    decreases b,
{
    if let TypeV::Alias(_, x) = b {
        lemma_contains_top(*x, e);
    }
}

/// No alias is left around `top_alias(b)`.
proof fn lemma_top_not_alias(b: TypeV)
    ensures
        !(top_alias(b) is Alias),
    decreases b,
{
    if let TypeV::Alias(_, x) = b {
        lemma_top_not_alias(*x);
    }
}

/// Without steps enough to look through the aliases around `b`, subtyping fails.
proof fn lemma_unwrap_right_short(c: CtxV, a: TypeV, b: TypeV, f: nat)
    requires
        !(a is Alias),
        f < alias_count(b),
    ensures
        crate::checker::sub_spec(c, a, b, f) is None,
    decreases b,
{
    if f > 0 {
        if let TypeV::Alias(_, y) = b {
            lemma_unwrap_right_short(c, a, *y, (f - 1) as nat);
        }
    }
}

/// Subtyping (`subtype`, see `sub_spec`) refuses an integer where a float is expected,
/// and refuses to solve an existential as a type that holds it (the occurs check), unless
/// that type is, through aliases, the existential itself.
pub proof fn law_subtype_refuses(c: CtxV, e: nat, b: TypeV, f: nat)
    ensures
        sub_spec(c, TypeV::Primitive(Primitive::Int64), TypeV::Primitive(Primitive::Float64), f) is None,
        top_alias(b) != TypeV::Existential(e) && tv_contains_existential(b, e) ==> sub_spec(c, TypeV::Existential(e), b, f) is None,
{
    if top_alias(b) != TypeV::Existential(e) && tv_contains_existential(b, e) {
        lemma_contains_top(b, e);
        lemma_top_not_alias(b);
        if f >= alias_count(b) {
            lemma_unwrap_right(c, TypeV::Existential(e), b, f);
            let z = top_alias(b);
            let g = (f - alias_count(b)) as nat;
            assert(sub_spec(c, TypeV::Existential(e), z, g) is None);
        } else {
            lemma_unwrap_right_short(c, TypeV::Existential(e), b, f);
        }
    }
}

/// Every existential of `c` is numbered at most `c.next_exid`: the identifier
/// `get_next_existential_identifier` hands out (`next_exid + 1`) is fresh.
pub open spec fn exids_fresh(c: CtxV) -> bool {
    forall|k: int| 0 <= k < c.items.len() ==> (#[trigger] c.items[k] matches ItemV::Existential(e, _) ==> e <= c.next_exid)
}

/// The position `first_where` finds lies within the sequence.
proof fn lemma_first_where_le(s: Seq<ItemV>, p: spec_fn(ItemV) -> bool, k: nat)
    ensures
        first_where(s, p, k) <= s.len(),
    decreases s.len() - k,
{
    if k < s.len() && !p(s[k as int]) {
        lemma_first_where_le(s, p, k + 1);
    }
}

/// The existentials of `abe_items(s, ex, it)` are those of `s` and `it`.
proof fn lemma_abe_exids(s: Seq<ItemV>, ex: usize, it: ItemV, bound: nat)
    requires
        forall|k: int| 0 <= k < s.len() ==> (#[trigger] s[k] matches ItemV::Existential(e, _) ==> e <= bound),
        it matches ItemV::Existential(e, _) ==> e <= bound,
    ensures
        forall|k: int| 0 <= k < abe_items(s, ex, it).len() ==> (#[trigger] abe_items(s, ex, it)[k] matches ItemV::Existential(e, _) ==> e <= bound),
    decreases s.len(),
{
    if s.len() > 0 {
        let d = s.drop_last();
        assert forall|k: int| 0 <= k < d.len() implies (#[trigger] d[k] matches ItemV::Existential(e, _) ==> e <= bound) by {
            assert(d[k] == s[k]);
        }
        lemma_abe_exids(d, ex, it, bound);
        assert(s.last() == s[s.len() - 1]);
    }
}

/// `max_exid(s, start)` is at least `start` and every existential of `s`.
proof fn lemma_max_exid(s: Seq<ItemV>, start: usize)
    ensures
        start <= max_exid(s, start),
        forall|k: int| 0 <= k < s.len() ==> (#[trigger] s[k] matches ItemV::Existential(e, _) ==> e <= max_exid(s, start)),
    decreases s.len(),
{
    if s.len() > 0 {
        let d = s.drop_last();
        lemma_max_exid(d, start);
        assert forall|k: int| 0 <= k < s.len() implies (#[trigger] s[k] matches ItemV::Existential(e, _) ==> e <= max_exid(s, start)) by {
            if k < s.len() - 1 {
                assert(s[k] == d[k]);
            }
        }
    }
}

/// The existential identifiers handed out stay fresh: a context of labels has no
/// existential, and adding items, solving existentials, adding items before an
/// existential and cutting the context keep every existential at most `next_exid`; after
/// the fresh existential `next_exid + 1` is added, the next one is one further.
pub proof fn law_exids_fresh(c: CtxV, it: ItemV, ex: usize, t: TypeV, name: Seq<char>, lt: &LabelTable, skip: Seq<String>)
    ensures
        labels_context(c, lt, skip) ==> exids_fresh(c),
        exids_fresh(c) ==> exids_fresh(ctx_append(c, it)),
        exids_fresh(c) ==> exids_fresh(ctx_set_existential(c, ex, t)),
        exids_fresh(c) ==> exids_fresh(ctx_before_item(c, it)),
        exids_fresh(c) ==> exids_fresh(ctx_before_assignment(c, name)),
        exids_fresh(c) ==> exids_fresh(ctx_add_before_existential(c, ex, it)),
        c.next_exid < usize::MAX ==> ctx_append(c, ItemV::Existential((c.next_exid + 1) as usize, None)).next_exid == c.next_exid + 1,
{
    if exids_fresh(c) {
        let a = ctx_append(c, it);
        assert forall|k: int| 0 <= k < a.items.len() implies (#[trigger] a.items[k] matches ItemV::Existential(e, _) ==> e <= a.next_exid) by {
            if k < c.items.len() {
                assert(a.items[k] == c.items[k]);
            }
        }
        lemma_first_where_le(c.items, |x: ItemV| crate::context::same_item(x, it), 0);
        lemma_first_where_le(c.items, |x: ItemV| crate::context::assigns_name(x, name), 0);
        let b = ctx_before_item(c, it);
        assert forall|k: int| 0 <= k < b.items.len() implies (#[trigger] b.items[k] matches ItemV::Existential(e, _) ==> e <= b.next_exid) by {
            assert(b.items[k] == c.items[k]);
        }
        let d = ctx_before_assignment(c, name);
        assert forall|k: int| 0 <= k < d.items.len() implies (#[trigger] d.items[k] matches ItemV::Existential(e, _) ==> e <= d.next_exid) by {
            assert(d.items[k] == c.items[k]);
        }
        let s2 = ctx_set_existential(c, ex, t);
        assert forall|k: int| 0 <= k < s2.items.len() implies (#[trigger] s2.items[k] matches ItemV::Existential(e, _) ==> e <= s2.next_exid) by {
            assert(s2.items[k] == set_item(c.items[k], ex, t));
        }
        let start = match it {
            ItemV::Existential(e2, _) => max_usize(e2, c.next_exid),
            _ => c.next_exid,
        };
        lemma_max_exid(c.items, start);
        let m = max_exid(c.items, start);
        lemma_abe_exids(c.items, ex, it, m as nat);
    }
    if labels_context(c, lt, skip) {
        assert forall|k: int| 0 <= k < c.items.len() implies (#[trigger] c.items[k] matches ItemV::Existential(e, _) ==> e <= c.next_exid) by {
            assert(c.items[k] matches ItemV::TypeAssignment(_, _));
        }
    }
}

/// The existential `e` occurs in `t` outside aliases.
pub open spec fn occurs(t: TypeV, e: nat) -> bool
    decreases t, 0nat,
{
    match t {
        TypeV::Existential(x) => x == e,
        TypeV::Function(a, b) => occurs(*a, e) || occurs(*b, e),
        TypeV::Product(a, b) => occurs(*a, e) || occurs(*b, e),
        TypeV::Forall(_, a) => occurs(*a, e),
        TypeV::Union(_, s) => occurs_seq(s, e, s.len()),
        _ => false,
    }
}

/// `e` occurs in one of the first `k` types of `s`.
pub open spec fn occurs_seq(s: Seq<TypeV>, e: nat, k: nat) -> bool
    decreases s, k,
{
    if k == 0 || k > s.len() {
        false
    } else {
        occurs_seq(s, e, (k - 1) as nat) || occurs(s[k - 1], e)
    }
}

/// The solution the context items give the existential `e`, if it is solved.
pub open spec fn solution(items: Seq<ItemV>, e: nat) -> Option<TypeV> {
    if e <= usize::MAX {
        match ctx_existential(items, e as usize) {
            Some(Some(t)) => Some(t),
            _ => None,
        }
    } else {
        None
    }
}

/// The solutions of `items` are acyclic, as the ranks `rk` (below the number of items)
/// show: a solution holds only solved existentials of lower rank.
pub open spec fn acyclic(items: Seq<ItemV>, rk: spec_fn(nat) -> nat) -> bool {
    forall|e: nat| #[trigger] solution(items, e) is Some ==> rk(e) < items.len() && forall|e2: nat|
        occurs(solution(items, e)->0, e2) && #[trigger] solution(items, e2) is Some ==> rk(e2) < rk(e)
}

/// No solved existential occurs in `t` outside aliases.
pub open spec fn substituted(items: Seq<ItemV>, t: TypeV) -> bool {
    forall|e: nat| occurs(t, e) ==> #[trigger] solution(items, e) is None
}

proof fn lemma_occurs_seq_at(s: Seq<TypeV>, e: nat, k: nat, j: int)
    requires
        0 <= j < k <= s.len(),
        occurs(s[j], e),
    ensures
        occurs_seq(s, e, k),
    decreases k,
{
    if j < k - 1 {
        lemma_occurs_seq_at(s, e, (k - 1) as nat, j);
    }
}

proof fn lemma_occurs_seq_prefix(s1: Seq<TypeV>, s2: Seq<TypeV>, e: nat, k: nat)
    requires
        k <= s1.len(),
        k <= s2.len(),
        forall|i: int| 0 <= i < k ==> s1[i] == s2[i],
    ensures
        occurs_seq(s1, e, k) == occurs_seq(s2, e, k),
    decreases k,
{
    if k > 0 {
        lemma_occurs_seq_prefix(s1, s2, e, (k - 1) as nat);
    }
}

/// Some type of the first `k` of `s` holds `e` where `occurs_seq` says so.
proof fn lemma_occurs_seq_witness(s: Seq<TypeV>, e: nat, k: nat)
    requires
        occurs_seq(s, e, k),
    ensures
        exists|j: int| 0 <= j < k && j < s.len() && occurs(#[trigger] s[j], e),
    decreases k,
{
    if !occurs(s[k - 1], e) {
        lemma_occurs_seq_witness(s, e, (k - 1) as nat);
    }
}

proof fn lemma_subst_seq_len(items: Seq<ItemV>, s: Seq<TypeV>, f: nat, k: nat)
    requires
        k <= s.len(),
    ensures
        crate::context::subst_seq(items, s, f, k).len() == k,
        forall|j: int| 0 <= j < k ==> #[trigger] crate::context::subst_seq(items, s, f, k)[j] == crate::context::subst(items, s[j], f),
    decreases k,
{
    if k > 0 {
        lemma_subst_seq_len(items, s, f, (k - 1) as nat);
    }
}

/// Substituting with fuel above the ranks of the solved existentials of `t` leaves none.
proof fn lemma_subst_done(items: Seq<ItemV>, rk: spec_fn(nat) -> nat, t: TypeV, f: nat)
    requires
        acyclic(items, rk),
        forall|e: nat| occurs(t, e) && #[trigger] solution(items, e) is Some ==> rk(e) < f,
    ensures
        substituted(items, crate::context::subst(items, t, f)),
    decreases f, t,
{
    let r = crate::context::subst(items, t, f);
    match t {
        TypeV::Existential(ex) => {
            if solution(items, ex) is Some {
                let t2 = solution(items, ex)->0;
                assert(rk(ex) < f);
                assert forall|e: nat| occurs(t2, e) && #[trigger] solution(items, e) is Some implies rk(e) < (f - 1) as nat by {}
                lemma_subst_done(items, rk, t2, (f - 1) as nat);
            } else {
                assert forall|e: nat| occurs(r, e) implies #[trigger] solution(items, e) is None by {}
            }
        },
        TypeV::Function(a, b) => {
            lemma_subst_done(items, rk, *a, f);
            lemma_subst_done(items, rk, *b, f);
        },
        TypeV::Product(a, b) => {
            lemma_subst_done(items, rk, *a, f);
            lemma_subst_done(items, rk, *b, f);
        },
        TypeV::Forall(v, a) => {
            lemma_subst_done(items, rk, *a, f);
        },
        TypeV::Union(n, sq) => {
            let ss = crate::context::subst_seq(items, sq, f, sq.len());
            lemma_subst_seq_len(items, sq, f, sq.len());
            assert forall|j: int| 0 <= j < sq.len() implies substituted(items, #[trigger] ss[j]) by {
                assert forall|e: nat| occurs(sq[j], e) && #[trigger] solution(items, e) is Some implies rk(e) < f by {
                    lemma_occurs_seq_at(sq, e, sq.len(), j);
                }
                lemma_subst_done(items, rk, sq[j], f);
            }
            assert forall|e: nat| occurs(r, e) implies #[trigger] solution(items, e) is None by {
                lemma_occurs_seq_witness(ss, e, ss.len());
                let j = choose|j: int| 0 <= j < ss.len() && j < ss.len() && occurs(#[trigger] ss[j], e);
                assert(substituted(items, ss[j]));
            }
        },
        _ => {},
    }
}

/// Substituting in a type without solved existentials (outside aliases) changes nothing.
proof fn lemma_subst_noop(items: Seq<ItemV>, t: TypeV, f: nat)
    requires
        substituted(items, t),
    ensures
        crate::context::subst(items, t, f) == t,
    decreases t,
{
    match t {
        TypeV::Existential(ex) => {
            assert(occurs(t, ex));
            assert(solution(items, ex) is None);
        },
        TypeV::Function(a, b) => {
            lemma_subst_noop(items, *a, f);
            lemma_subst_noop(items, *b, f);
        },
        TypeV::Product(a, b) => {
            lemma_subst_noop(items, *a, f);
            lemma_subst_noop(items, *b, f);
        },
        TypeV::Forall(v, a) => {
            lemma_subst_noop(items, *a, f);
        },
        TypeV::Union(n, sq) => {
            lemma_subst_seq_len(items, sq, f, sq.len());
            assert forall|j: int| 0 <= j < sq.len() implies crate::context::subst(items, #[trigger] sq[j], f) == sq[j] by {
                assert forall|e: nat| occurs(sq[j], e) implies #[trigger] solution(items, e) is None by {
                    lemma_occurs_seq_at(sq, e, sq.len(), j);
                }
                lemma_subst_noop(items, sq[j], f);
            }
            assert(crate::context::subst_seq(items, sq, f, sq.len()) =~= sq);
        },
        _ => {},
    }
}

/// Substituting solutions (`Context::substitute`, see `ctx_subst`) in a context whose
/// solutions are acyclic leaves no solved existential outside aliases, so substituting
/// again changes nothing; an existential that is not solved is left as it is.
pub proof fn law_substitute_idempotent(c: CtxV, t: TypeV, rk: spec_fn(nat) -> nat, e: usize)
    requires
        acyclic(c.items, rk),
    ensures
        substituted(c.items, ctx_subst(c, t)),
        ctx_subst(c, ctx_subst(c, t)) == ctx_subst(c, t),
        solution(c.items, e as nat) is None ==> ctx_subst(c, TypeV::Existential(e as nat)) == TypeV::Existential(e as nat),
{
    lemma_subst_done(c.items, rk, t, c.items.len());
    lemma_subst_noop(c.items, ctx_subst(c, t), c.items.len());
}

} // verus!

verus! {

/// Values of two differently named data types are never subtypes of one another, whatever
/// their arguments: a union is a subtype of a union only under the same name.
pub proof fn law_union_names_differ(c: CtxV, n1: Seq<char>, u1: Seq<TypeV>, n2: Seq<char>, u2: Seq<TypeV>, f: nat)
    requires
        n1 != n2,
    ensures
        sub_spec(c, TypeV::Union(n1, u1), TypeV::Union(n2, u2), f) is None,
        sub_spec(c, TypeV::Union(n2, u2), TypeV::Union(n1, u1), f) is None,
{
}

/// A literal pattern matches a literal exactly when the two are written alike, binding
/// nothing; a literal written otherwise refutes it.
pub proof fn law_literal_pattern(ast: &AST, e: int, p: int)
    requires
        ast.wf(),
        ast.valid(e),
        ast.valid(p),
        ast.vec@[e].t == ASTNodeType::Literal,
        ast.vec@[p].t == ASTNodeType::Literal,
    ensures
        ast.value_of(e) == ast.value_of(p) <==> match_spec(ast, e, p) is Success,
        ast.value_of(e) != ast.value_of(p) <==> match_spec(ast, e, p) is Refute,
        match_spec(ast, e, p) matches Outcome::Success(b) ==> b.len() == 0,
{
}

/// The first case of a match, `k`, that the inspected expression is not refuted by
/// decides the step: if it matches, the match itself is the redex and it is contracted
/// with that case; if it cannot be told yet, the redex lies inside the inspected
/// expression; later cases play no part.
pub proof fn law_match_first_open_case(ast: &AST, lt: &LabelTable, module: Option<usize>, e: int, k: nat)
    requires
        ast.wf(),
        ast.valid(e),
        ast.vec@[e].t == ASTNodeType::Match,
        2 * k + 1 < ast.vec@[e].children@.len(),
        forall|j: int| 0 <= j < k ==> match_spec(ast, ast.child(e, 0) as int, #[trigger] ast.child(e, 2 * j + 1) as int) is Refute,
        !(match_spec(ast, ast.child(e, 0) as int, ast.child(e, 2 * k as int + 1) as int) is Refute),
    ensures
        crate::redex::first_case(ast, e, 0) == Some(k),
        match_spec(ast, ast.child(e, 0) as int, ast.child(e, 2 * k as int + 1) as int) is Success ==> single_from(ast, lt, module, e)
            == Some(e as usize),
        match_spec(ast, ast.child(e, 0) as int, ast.child(e, 2 * k as int + 1) as int) is Unknown ==> single_from(ast, lt, module, e)
            == single_from(ast, lt, module, ast.child(e, 0) as int),
{
    lemma_first_case_from(ast, e, 0, k);
}

/// With every case before `k` refuted and case `k` not, the search from `j <= k` stops at
/// `k`.
proof fn lemma_first_case_from(ast: &AST, e: int, j: nat, k: nat)
    requires
        j <= k,
        2 * k + 1 < ast.vec@[e].children@.len(),
        forall|i: int| 0 <= i < k ==> match_spec(ast, ast.child(e, 0) as int, #[trigger] ast.child(e, 2 * i + 1) as int) is Refute,
        !(match_spec(ast, ast.child(e, 0) as int, ast.child(e, 2 * k as int + 1) as int) is Refute),
    ensures
        crate::redex::first_case(ast, e, j) == Some(k),
    decreases k - j,
{
    if j < k {
        assert(match_spec(ast, ast.child(e, 0) as int, ast.child(e, 2 * j as int + 1) as int) is Refute);
        lemma_first_case_from(ast, e, j + 1, k);
    }
}

/// A match in which every case is refuted is no redex itself: the step lies inside the
/// inspected expression.
pub proof fn law_match_all_refuted(ast: &AST, lt: &LabelTable, module: Option<usize>, e: int)
    requires
        ast.wf(),
        ast.valid(e),
        ast.vec@[e].t == ASTNodeType::Match,
        forall|j: int| 0 <= j && 2 * j + 1 < ast.vec@[e].children@.len() ==> match_spec(ast, ast.child(e, 0) as int, #[trigger] ast.child(e, 2 * j + 1) as int) is Refute,
    ensures
        single_from(ast, lt, module, e) == single_from(ast, lt, module, ast.child(e, 0) as int),
{
    lemma_first_case_none(ast, e, 0);
}

proof fn lemma_first_case_none(ast: &AST, e: int, j: nat)
    requires
        forall|i: int| 0 <= i && 2 * i + 1 < ast.vec@[e].children@.len() ==> match_spec(ast, ast.child(e, 0) as int, #[trigger] ast.child(e, 2 * i + 1) as int) is Refute,
    ensures
        crate::redex::first_case(ast, e, j) is None,
    decreases ast.vec@[e].children@.len() - 2 * j,
{
    if 2 * j + 1 < ast.vec@[e].children@.len() {
        assert(match_spec(ast, ast.child(e, 0) as int, ast.child(e, 2 * j as int + 1) as int) is Refute);
        lemma_first_case_none(ast, e, j + 1);
    }
}

/// In the written form of an application (neither `if .. then .. else ..` nor written with
/// `$`), an argument that is itself an application or an abstraction stands between
/// brackets, so that it reads back as one argument.
pub proof fn law_argument_bracketed(ast: &AST, e: int, show: bool)
    requires
        ast.wf(),
        ast.valid(e),
        ast.vec@[e].t == ASTNodeType::Application,
        !ast.is_ite(e),
        !ast.vec@[e].dollar_app,
        ast.vec@[ast.child(e, 1) as int].t == ASTNodeType::Application || ast.vec@[ast.child(e, 1) as int].t
            == ASTNodeType::Abstraction,
    ensures
        exists|i: int| #![trigger ast.sugar(e, show).subrange(i, i + ast.sugar(ast.child(e, 1) as int, show).len() + 2)]
            0 <= i && i + ast.sugar(ast.child(e, 1) as int, show).len() + 2 <= ast.sugar(e, show).len()
            && ast.sugar(e, show).subrange(i, i + ast.sugar(ast.child(e, 1) as int, show).len() + 2)
            == crate::output::paren(ast.sugar(ast.child(e, 1) as int, show)),
{
    ast.lemma_node(e);
    let f = ast.child(e, 0) as int;
    let x = ast.child(e, 1) as int;
    let fs = ast.sugar(f, show);
    let xs = ast.sugar(x, show);
    let fs2 = if ast.vec@[f].t == ASTNodeType::Abstraction { crate::output::paren(fs) } else { fs };
    let xs2 = crate::output::paren(xs);
    let s = ast.sugar(e, show);
    if ast.vec@[f].info is Some && ast.vec@[f].info->0.tt == TokenType::Id && crate::token::infix_name(ast.vec@[f].info->0.value@) {
        assert(s == xs2 + seq![' '] + fs2);
        assert(s.subrange(0, xs.len() + 2 as int) =~= xs2);
        let i: int = 0;
        assert(s.subrange(i, i + xs.len() + 2) == xs2);
    } else {
        assert(s == fs2 + seq![' '] + xs2);
        assert(s.subrange(fs2.len() + 1 as int, fs2.len() + 1 + xs.len() + 2 as int) =~= xs2);
        let i: int = fs2.len() + 1int;
        assert(s.subrange(i, i + xs.len() + 2) == xs2);
    }
}

/// In the written form of an application (neither `if .. then .. else ..` nor written with
/// `$`), a function that is an abstraction stands between brackets, so that its body does
/// not swallow the argument.
pub proof fn law_function_bracketed(ast: &AST, e: int, show: bool)
    requires
        ast.wf(),
        ast.valid(e),
        ast.vec@[e].t == ASTNodeType::Application,
        !ast.is_ite(e),
        !ast.vec@[e].dollar_app,
        ast.vec@[ast.child(e, 0) as int].t == ASTNodeType::Abstraction,
    ensures
        exists|i: int| #![trigger ast.sugar(e, show).subrange(i, i + ast.sugar(ast.child(e, 0) as int, show).len() + 2)]
            0 <= i && i + ast.sugar(ast.child(e, 0) as int, show).len() + 2 <= ast.sugar(e, show).len()
            && ast.sugar(e, show).subrange(i, i + ast.sugar(ast.child(e, 0) as int, show).len() + 2)
            == crate::output::paren(ast.sugar(ast.child(e, 0) as int, show)),
{
    ast.lemma_node(e);
    let f = ast.child(e, 0) as int;
    let x = ast.child(e, 1) as int;
    let fs = ast.sugar(f, show);
    let xs = ast.sugar(x, show);
    let fs2 = crate::output::paren(fs);
    let xs2 = if ast.vec@[x].t == ASTNodeType::Application || ast.vec@[x].t == ASTNodeType::Abstraction { crate::output::paren(xs) } else { xs };
    let s = ast.sugar(e, show);
    if ast.vec@[f].info is Some && ast.vec@[f].info->0.tt == TokenType::Id && crate::token::infix_name(ast.vec@[f].info->0.value@) {
        assert(s == xs2 + seq![' '] + fs2);
        assert(s.subrange(xs2.len() + 1 as int, xs2.len() + 1 + fs.len() + 2 as int) =~= fs2);
        let i: int = xs2.len() + 1int;
        assert(s.subrange(i, i + fs.len() + 2) == fs2);
    } else {
        assert(s == fs2 + seq![' '] + xs2);
        assert(s.subrange(0, fs.len() + 2 as int) =~= fs2);
        let i: int = 0;
        assert(s.subrange(i, i + fs.len() + 2) == fs2);
    }
}

/// Two different primitive types, or two different type variables, are not subtypes of one
/// another; a unit type is a subtype of no primitive type and no primitive type of it.
pub proof fn law_subtype_distinct_atoms(c: CtxV, p: Primitive, q: Primitive, x: Seq<char>, y: Seq<char>, f: nat)
    ensures
        p != q ==> sub_spec(c, TypeV::Primitive(p), TypeV::Primitive(q), f) is None,
        x != y ==> sub_spec(c, TypeV::TypeVariable(x), TypeV::TypeVariable(y), f) is None,
        sub_spec(c, TypeV::Unit, TypeV::Primitive(p), f) is None,
        sub_spec(c, TypeV::Primitive(p), TypeV::Unit, f) is None,
{
}

/// A function type is a subtype of another only if the second's argument type is a
/// subtype of the first's (arguments are compared the other way round); a product is a
/// subtype of a product only if the first components are.
pub proof fn law_subtype_components(c: CtxV, a1: TypeV, a2: TypeV, b1: TypeV, b2: TypeV, f: nat)
    ensures
        sub_spec(c, TypeV::Function(Box::new(a1), Box::new(a2)), TypeV::Function(Box::new(b1), Box::new(b2)), f) is Some
            ==> sub_spec(c, b1, a1, (f - 1) as nat) is Some,
        sub_spec(c, TypeV::Product(Box::new(a1), Box::new(a2)), TypeV::Product(Box::new(b1), Box::new(b2)), f) is Some
            ==> sub_spec(c, a1, b1, (f - 1) as nat) is Some,
{
}

/// A pattern variable (a name starting with a lower case letter) matches any expression,
/// binding exactly its name to it; `_` matches any expression, binding nothing.
pub proof fn law_variable_and_wildcard_patterns(ast: &AST, e: int, p: int)
    requires
        ast.wf(),
        ast.valid(e),
        ast.valid(p),
        ast.vec@[p].t == ASTNodeType::Identifier,
    ensures
        is_lower(ast.value_of(p)[0]) ==> match_spec(ast, e, p) == Outcome::Success(seq![(ast.value_of(p), e as usize)]),
        ast.value_of(p)[0] == '_' ==> match_spec(ast, e, p) == Outcome::Success(Seq::empty()),
{
}

/// A constructor pattern against a constructor: they match, binding nothing, exactly
/// when they are the same constructor, and a different one refutes it.
pub proof fn law_constructor_patterns(ast: &AST, e: int, p: int)
    requires
        ast.wf(),
        ast.valid(e),
        ast.valid(p),
        ast.vec@[p].t == ASTNodeType::Identifier,
        ast.vec@[e].t == ASTNodeType::Identifier,
        crate::text::is_upper(ast.value_of(p)[0]),
        crate::text::is_upper(ast.value_of(e)[0]),
    ensures
        ast.value_of(e) == ast.value_of(p) <==> match_spec(ast, e, p) == Outcome::Success(Seq::empty()),
        ast.value_of(e) != ast.value_of(p) <==> match_spec(ast, e, p) is Refute,
{
}

} // verus!
