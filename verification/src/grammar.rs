//! What the parser makes of a sequence of tokens: the types and expressions it accepts,
//! as functions of the tokens, the position to start at and the names that are bound.
//! Each gives the result with the position of the first token after it, or nothing
//! where the parser reports an error.
use vstd::prelude::*;

use crate::lexer::lexed;
use crate::term::Term;
use crate::token::{infix_name, Token, TokenType};
use crate::text::seq_lt;
use crate::types::{names, names_has, tv_arity, tv_binds, tv_fa, tv_subst, tv_tvs, Type, TypeV};

verus! {

/// The tokens are those of a lexed text: they end with the only `EOF`.
pub open spec fn tokens_ok(tokens: Seq<(Token, usize, usize)>) -> bool {
    &&& tokens.len() >= 1
    &&& tokens.last().0.tt == TokenType::EOF
    &&& forall|i: int| 0 <= i < tokens.len() - 1 ==> #[trigger] tokens[i].0.tt != TokenType::EOF
    &&& forall|i: int| 0 <= i < tokens.len() ==> lexed(#[trigger] tokens[i].0)
}

/// The kind of the token at `i` (`EOF` past the end).
pub open spec fn tt_at(ts: Seq<(Token, usize, usize)>, i: int) -> TokenType {
    if 0 <= i < ts.len() {
        ts[i].0.tt
    } else {
        TokenType::EOF
    }
}

/// The text of the token at `i`.
pub open spec fn val_at(ts: Seq<(Token, usize, usize)>, i: int) -> Seq<char> {
    ts[i].0.value@
}

/// The position after the token at `i` (the final `EOF` is never left).
pub open spec fn adv(ts: Seq<(Token, usize, usize)>, i: int) -> int {
    if i < ts.len() - 1 {
        i + 1
    } else {
        i
    }
}

/// `i` is a position of the tokens, which are those of a lexed text.
pub open spec fn at_token(ts: Seq<(Token, usize, usize)>, i: int) -> bool {
    tokens_ok(ts) && 0 <= i < ts.len()
}

/// The type declared last under `name`.
pub open spec fn tm_get(tm: Seq<(Seq<char>, TypeV)>, name: Seq<char>) -> Option<TypeV>
    decreases tm.len(),
{
    if tm.len() == 0 {
        None
    } else if tm.last().0 == name {
        Some(tm.last().1)
    } else {
        tm_get(tm.drop_last(), name)
    }
}

/// Whether `vs` (the type variables in scope, when given) admits the variable `v`.
pub open spec fn tv_admitted(bvs: Option<Seq<Seq<char>>>, v: Seq<char>) -> bool {
    match bvs {
        None => true,
        Some(vs) => vs.contains(v),
    }
}

/// A type: a type variable, a declared type name, or a bracketed type; then arrows (to
/// the right), pairs and type applications.
pub open spec fn ty_expr(ts: Seq<(Token, usize, usize)>, i: int, tm: Seq<(Seq<char>, TypeV)>, bvs: Option<Seq<Seq<char>>>) -> Option<(TypeV, int)>
    decreases ts.len() - i, 2nat,
{
    if !at_token(ts, i) {
        None
    } else {
        match ty_primary(ts, i, tm, bvs) {
            Some((left, j)) => if i < j <= ts.len() {
                ty_loop(ts, j, left, tm, bvs)
            } else {
                None
            },
            None => None,
        }
    }
}

/// What follows the type `left`, from `j` on.
pub open spec fn ty_loop(ts: Seq<(Token, usize, usize)>, j: int, left: TypeV, tm: Seq<(Seq<char>, TypeV)>, bvs: Option<Seq<Seq<char>>>) -> Option<(TypeV, int)>
    decreases ts.len() - j, 2nat,
{
    if !at_token(ts, j) {
        None
    } else {
        let tt = tt_at(ts, j);
        if tt == TokenType::RArrow || tt == TokenType::Comma {
            match ty_expr(ts, adv(ts, j), tm, bvs) {
                Some((right, k)) => if j < k <= ts.len() {
                    ty_loop(
                        ts,
                        k,
                        if tt == TokenType::RArrow {
                            TypeV::Function(Box::new(left), Box::new(right))
                        } else {
                            TypeV::Product(Box::new(left), Box::new(right))
                        },
                        tm,
                        bvs,
                    )
                } else {
                    None
                },
                None => None,
            }
        } else if tt == TokenType::UppercaseId || tt == TokenType::Id || tt == TokenType::LParen {
            if tt == TokenType::Id && tt_at(ts, j + 1) == TokenType::DoubleColon {
                Some((left, j))
            } else {
                match ty_primary(ts, j, tm, bvs) {
                    Some((arg, k)) => match left {
                        TypeV::Forall(v, b) => if !tv_binds(*b, v) && j < k <= ts.len() {
                            ty_loop(ts, k, tv_subst(*b, v, arg), tm, bvs)
                        } else {
                            None
                        },
                        _ => None,
                    },
                    None => None,
                }
            }
        } else if tt == TokenType::RParen || tt == TokenType::Newline || tt == TokenType::EOF || tt
            == TokenType::Dot || tt == TokenType::LBrace {
            Some((left, j))
        } else {
            None
        }
    }
}

/// A type variable, a declared type name, or a type in brackets (the closing bracket is
/// passed over whatever it is).
pub open spec fn ty_primary(ts: Seq<(Token, usize, usize)>, i: int, tm: Seq<(Seq<char>, TypeV)>, bvs: Option<Seq<Seq<char>>>) -> Option<(TypeV, int)>
    decreases ts.len() - i, 1nat,
{
    if !at_token(ts, i) {
        None
    } else {
        let tt = tt_at(ts, i);
        let v = val_at(ts, i);
        if tt == TokenType::Id {
            if tv_admitted(bvs, v) {
                Some((TypeV::TypeVariable(v), adv(ts, i)))
            } else {
                None
            }
        } else if tt == TokenType::UppercaseId {
            match tm_get(tm, v) {
                Some(t) => Some((t, adv(ts, i))),
                None => None,
            }
        } else if tt == TokenType::LParen {
            match ty_expr(ts, adv(ts, i), tm, bvs) {
                Some((t, k)) => Some((t, adv(ts, k))),
                None => None,
            }
        } else {
            None
        }
    }
}

/// `r` is `t` quantified over its type variables, each once, in ascending order (that of
/// `String`).
pub open spec fn annotated(r: TypeV, t: TypeV) -> bool {
    exists|vs: Seq<Seq<char>>|
        r == tv_fa(vs, t) && vs.len() == tv_tvs(t).len() && vs.to_set() == tv_tvs(t)
        && forall|i: int, j: int| 0 <= i < j < vs.len() ==> !seq_lt(#[trigger] vs[j], #[trigger] vs[i])
}

/// The annotation of the type `u`: `u` quantified over its type variables in ascending
/// order (see `lemma_annotated_unique`).
pub open spec fn annot_of(u: TypeV) -> TypeV {
    choose|r: TypeV| annotated(r, u)
}

/// Two different character sequences are ordered one way or the other.
pub proof fn lemma_seq_lt_total(a: Seq<char>, b: Seq<char>)
    ensures
        a != b ==> seq_lt(a, b) || seq_lt(b, a),
    decreases a.len(),
{
    if a.len() > 0 && b.len() > 0 && a[0] == b[0] {
        lemma_seq_lt_total(a.drop_first(), b.drop_first());
        if a.drop_first() == b.drop_first() {
            assert(a =~= seq![a[0]] + a.drop_first());
            assert(b =~= seq![b[0]] + b.drop_first());
        }
    } else if a.len() == 0 && b.len() == 0 {
        assert(a =~= b);
    }
}

/// Two sorted sequences without repeats that hold the same names are the same.
pub proof fn lemma_sorted_unique(v1: Seq<Seq<char>>, v2: Seq<Seq<char>>)
    requires
        v1.no_duplicates(),
        v2.no_duplicates(),
        forall|i: int, j: int| 0 <= i < j < v1.len() ==> !seq_lt(#[trigger] v1[j], #[trigger] v1[i]),
        forall|i: int, j: int| 0 <= i < j < v2.len() ==> !seq_lt(#[trigger] v2[j], #[trigger] v2[i]),
        v1.to_set() == v2.to_set(),
    ensures
        v1 == v2,
    decreases v1.len(),
{
    if v1.len() == 0 {
        if v2.len() > 0 {
            assert(v2.to_set().contains(v2[0]));
        }
        assert(v1 =~= v2);
    } else {
        assert(v1.to_set().contains(v1[0]));
        assert(v2.len() > 0);
        let a = v1[0];
        let c = v2[0];
        assert(v2.to_set().contains(c));
        assert(v1.contains(c));
        assert(v2.contains(a));
        let n = choose|n: int| 0 <= n < v1.len() && v1[n] == c;
        let m = choose|m: int| 0 <= m < v2.len() && v2[m] == a;
        lemma_seq_lt_total(a, c);
        if a != c {
            assert(n > 0);
            assert(m > 0);
            assert(!seq_lt(v1[n], v1[0]));
            assert(!seq_lt(v2[m], v2[0]));
        }
        let d1 = v1.drop_first();
        let d2 = v2.drop_first();
        assert forall|x: Seq<char>| d1.to_set().contains(x) <==> d2.to_set().contains(x) by {
            if d1.contains(x) {
                let i = choose|i: int| 0 <= i < d1.len() && d1[i] == x;
                assert(v1[i + 1] == x);
                assert(x != a);
                assert(v1.contains(x));
                assert(v1.to_set().contains(x));
                assert(v2.contains(x));
                let k = choose|k: int| 0 <= k < v2.len() && v2[k] == x;
                assert(k != 0);
                assert(d2[k - 1] == x);
            }
            if d2.contains(x) {
                let i = choose|i: int| 0 <= i < d2.len() && d2[i] == x;
                assert(v2[i + 1] == x);
                assert(x != c);
                assert(v2.contains(x));
                assert(v2.to_set().contains(x));
                assert(v1.contains(x));
                let k = choose|k: int| 0 <= k < v1.len() && v1[k] == x;
                assert(k != 0);
                assert(d1[k - 1] == x);
            }
        }
        assert(d1.to_set() =~= d2.to_set());
        assert forall|i: int, j: int| 0 <= i < j < d1.len() implies !seq_lt(#[trigger] d1[j], #[trigger] d1[i]) by {
            assert(!seq_lt(v1[j + 1], v1[i + 1]));
        }
        assert forall|i: int, j: int| 0 <= i < j < d2.len() implies !seq_lt(#[trigger] d2[j], #[trigger] d2[i]) by {
            assert(!seq_lt(v2[j + 1], v2[i + 1]));
        }
        lemma_sorted_unique(d1, d2);
        assert(a == c);
        assert forall|i: int| 0 <= i < v1.len() implies v1[i] == v2[i] by {
            if i > 0 {
                assert(v1[i] == d1[i - 1]);
                assert(v2[i] == d2[i - 1]);
            }
        }
        assert(v1 =~= v2);
    }
}

/// A type has one annotation.
pub proof fn lemma_annotated_unique(r: TypeV, u: TypeV)
    requires
        annotated(r, u),
    ensures
        annot_of(u) == r,
{
    let r2 = annot_of(u);
    assert(annotated(r2, u));
    let vs1 = choose|vs: Seq<Seq<char>>|
        r == tv_fa(vs, u) && vs.len() == tv_tvs(u).len() && vs.to_set() == tv_tvs(u)
        && forall|i: int, j: int| 0 <= i < j < vs.len() ==> !seq_lt(#[trigger] vs[j], #[trigger] vs[i]);
    let vs2 = choose|vs: Seq<Seq<char>>|
        r2 == tv_fa(vs, u) && vs.len() == tv_tvs(u).len() && vs.to_set() == tv_tvs(u)
        && forall|i: int, j: int| 0 <= i < j < vs.len() ==> !seq_lt(#[trigger] vs[j], #[trigger] vs[i]);
    vs1.lemma_no_dup_set_cardinality();
    vs2.lemma_no_dup_set_cardinality();
    lemma_sorted_unique(vs1, vs2);
}

/// The type variables of `t` sorted, from a list of them without repeats: they are
/// `annotated`'s.
pub proof fn lemma_annotated(l: Seq<String>, s: Seq<String>, t: TypeV)
    requires
        forall|i: int, j: int| 0 <= i < j < l.len() ==> l[i]@ != l[j]@,
        forall|n: Seq<char>| tv_tvs(t).contains(n) <==> names_has(l, n),
        s.len() == l.len(),
        s.to_multiset() == l.to_multiset(),
        forall|i: int, j: int| 0 <= i < j < s.len() ==> !seq_lt(s[j]@, s[i]@),
    ensures
        annotated(tv_fa(names(s), t), t),
{
    let vs = names(s);
    let nl = names(l);
    assert forall|n: Seq<char>| vs.to_set().contains(n) <==> tv_tvs(t).contains(n) by {
        if vs.contains(n) {
            let i = choose|i: int| 0 <= i < vs.len() && vs[i] == n;
            s.to_multiset_ensures();
            l.to_multiset_ensures();
            assert(s.contains(s[i]));
            assert(s.to_multiset().count(s[i]) > 0);
            assert(l.to_multiset().count(s[i]) > 0);
            assert(l.contains(s[i]));
            let j = choose|j: int| 0 <= j < l.len() && l[j] == s[i];
            assert(names_has(l, n));
        }
        if tv_tvs(t).contains(n) {
            assert(names_has(l, n));
            let j = choose|j: int| 0 <= j < l.len() && l[j]@ == n;
            s.to_multiset_ensures();
            l.to_multiset_ensures();
            assert(l.contains(l[j]));
            assert(l.to_multiset().count(l[j]) > 0);
            assert(s.to_multiset().count(l[j]) > 0);
            assert(s.contains(l[j]));
            let i = choose|i: int| 0 <= i < s.len() && s[i] == l[j];
            assert(vs[i] == n);
        }
    }
    assert(vs.to_set() =~= tv_tvs(t));
    assert forall|n: Seq<char>| nl.to_set().contains(n) <==> tv_tvs(t).contains(n) by {
        if nl.contains(n) {
            let i = choose|i: int| 0 <= i < nl.len() && nl[i] == n;
            assert(l[i]@ == n);
            assert(names_has(l, n));
        }
        if tv_tvs(t).contains(n) {
            assert(names_has(l, n));
            let j = choose|j: int| 0 <= j < l.len() && l[j]@ == n;
            assert(nl[j] == n);
            assert(nl.contains(n));
        }
    }
    assert(nl.to_set() =~= tv_tvs(t));
    assert(nl.no_duplicates()) by {
        assert forall|i: int, j: int| 0 <= i < nl.len() && 0 <= j < nl.len() && i != j implies nl[i] != nl[j] by {
            if i < j {
                assert(l[i]@ != l[j]@);
            } else {
                assert(l[j]@ != l[i]@);
            }
        }
    }
    nl.unique_seq_to_set();
    assert forall|i: int, j: int| 0 <= i < j < vs.len() implies !seq_lt(#[trigger] vs[j], #[trigger] vs[i]) by {
        assert(!seq_lt(s[j]@, s[i]@));
    }
}

/// Each name with the value of its type.
pub open spec fn named_types(v: Seq<(String, Type)>) -> Seq<(Seq<char>, TypeV)> {
    Seq::new(v.len(), |i: int| (v[i].0@, v[i].1@))
}

/// The fields of a constructor from `j` on, after `fields`: a type parameter (one of
/// `ps`), a declared type name, or a type in brackets; anything else ends them.
pub open spec fn c_fields(ts: Seq<(Token, usize, usize)>, j: int, ps: Seq<Seq<char>>, tm: Seq<(Seq<char>, TypeV)>, fields: Seq<TypeV>) -> Option<(Seq<TypeV>, int)>
    decreases ts.len() - j,
{
    if !at_token(ts, j) {
        None
    } else {
        let tt = tt_at(ts, j);
        let v = val_at(ts, j);
        let n = adv(ts, j);
        if tt == TokenType::Id {
            if ps.contains(v) && j < n {
                c_fields(ts, n, ps, tm, fields.push(TypeV::TypeVariable(v)))
            } else {
                None
            }
        } else if tt == TokenType::UppercaseId {
            match tm_get(tm, v) {
                Some(t) => if j < n {
                    c_fields(ts, n, ps, tm, fields.push(t))
                } else {
                    None
                },
                None => None,
            }
        } else if tt == TokenType::LParen {
            match ty_expr(ts, n, tm, Some(ps)) {
                Some((t, k)) => if tt_at(ts, k) == TokenType::RParen && j < k < ts.len() {
                    c_fields(ts, adv(ts, k), ps, tm, fields.push(t))
                } else {
                    None
                },
                None => None,
            }
        } else {
            Some((fields, j))
        }
    }
}

/// A constructor: its name (upper case) and its fields.
pub open spec fn c_ctor(ts: Seq<(Token, usize, usize)>, i: int, ps: Seq<Seq<char>>, tm: Seq<(Seq<char>, TypeV)>) -> Option<(Seq<char>, Seq<TypeV>, int)> {
    if !at_token(ts, i) || tt_at(ts, i) != TokenType::UppercaseId {
        None
    } else {
        match c_fields(ts, adv(ts, i), ps, tm, Seq::empty()) {
            Some((fs, k)) => Some((val_at(ts, i), fs, k)),
            None => None,
        }
    }
}

/// The fields' types arrowing to `u`.
pub open spec fn arrows(fs: Seq<TypeV>, u: TypeV) -> TypeV
    decreases fs.len(),
{
    if fs.len() == 0 {
        u
    } else {
        TypeV::Function(Box::new(fs[0]), Box::new(arrows(fs.drop_first(), u)))
    }
}

/// `cs` with `n` given the type `t`: in its place where `n` is there already, else at
/// the end.
pub open spec fn upsert(cs: Seq<(Seq<char>, TypeV)>, n: Seq<char>, t: TypeV) -> Seq<(Seq<char>, TypeV)> {
    if exists|x: int| 0 <= x < cs.len() && cs[x].0 == n {
        let x = choose|x: int| 0 <= x < cs.len() && cs[x].0 == n;
        cs.update(x, (n, t))
    } else {
        cs.push((n, t))
    }
}

/// The constructors of a data declaration over the parameters `ps` of the type `u`, from
/// `j` on, after `cs`: each with the type of its fields arrowing to `u`, quantified over
/// `ps`; `|` is passed over; a line break or the end ends them.
pub open spec fn mc_loop(ts: Seq<(Token, usize, usize)>, j: int, ps: Seq<Seq<char>>, u: TypeV, tm: Seq<(Seq<char>, TypeV)>, cs: Seq<(Seq<char>, TypeV)>) -> Option<(Seq<(Seq<char>, TypeV)>, int)>
    decreases ts.len() - j,
{
    if !at_token(ts, j) {
        None
    } else {
        let tt = tt_at(ts, j);
        if tt == TokenType::UppercaseId {
            match c_ctor(ts, j, ps, tm) {
                Some((n, fs, k)) => if j < k <= ts.len() {
                    mc_loop(ts, k, ps, u, tm, upsert(cs, n, tv_fa(ps, arrows(fs, u))))
                } else {
                    None
                },
                None => None,
            }
        } else if tt == TokenType::Bar {
            if j < adv(ts, j) {
                mc_loop(ts, adv(ts, j), ps, u, tm, cs)
            } else {
                None
            }
        } else if tt == TokenType::Newline || tt == TokenType::EOF {
            Some((cs, adv(ts, j)))
        } else {
            None
        }
    }
}

/// The parameters of a data declaration from `j` on, after `ps`: lower case names, each
/// once, up to `=`; gives them and the position after `=`.
pub open spec fn d_params(ts: Seq<(Token, usize, usize)>, j: int, ps: Seq<Seq<char>>) -> Option<(Seq<Seq<char>>, int)>
    decreases ts.len() - j,
{
    if !at_token(ts, j) {
        None
    } else {
        let tt = tt_at(ts, j);
        let v = val_at(ts, j);
        if tt == TokenType::Id {
            if !ps.contains(v) && j < adv(ts, j) {
                d_params(ts, adv(ts, j), ps.push(v))
            } else {
                None
            }
        } else if tt == TokenType::Assignment {
            Some((ps, adv(ts, j)))
        } else {
            None
        }
    }
}

/// The type a data declaration of `n` over `ps` declares.
pub open spec fn data_type(n: Seq<char>, ps: Seq<Seq<char>>) -> TypeV {
    TypeV::Union(n, Seq::new(ps.len(), |k: int| TypeV::TypeVariable(ps[k])))
}

/// The names bound after binding each of `ns` in turn; nothing where one is bound already.
pub open spec fn bind_names(b: Set<Seq<char>>, ns: Seq<Seq<char>>) -> Option<Set<Seq<char>>>
    decreases ns.len(),
{
    if ns.len() == 0 {
        Some(b)
    } else {
        match bind_names(b, ns.drop_last()) {
            Some(b1) => if b1.contains(ns.last()) {
                None
            } else {
                Some(b1.insert(ns.last()))
            },
            None => None,
        }
    }
}

/// A data declaration from `i` on (`data Name params = constructors`), with the types
/// `tm` and the names `b` bound: its name, parameters and constructors (with their
/// types), and where it ends. The name must not be a declared type, and no constructor's
/// name may be bound.
pub open spec fn d_data(ts: Seq<(Token, usize, usize)>, i: int, tm: Seq<(Seq<char>, TypeV)>, b: Set<Seq<char>>) -> Option<(Seq<char>, Seq<Seq<char>>, Seq<(Seq<char>, TypeV)>, int)> {
    let i1 = adv(ts, i);
    if !at_token(ts, i) || tt_at(ts, i) != TokenType::KWData || tt_at(ts, i1) != TokenType::UppercaseId {
        None
    } else {
        let n = val_at(ts, i1);
        match d_params(ts, adv(ts, i1), Seq::empty()) {
            Some((ps, k)) => if tm_get(tm, n) is Some {
                None
            } else {
                let u = data_type(n, ps);
                match mc_loop(ts, k, ps, u, tm.push((n, tv_fa(ps, u))), Seq::empty()) {
                    Some((cs, k2)) => if bind_names(b, cs.map_values(|c: (Seq<char>, TypeV)| c.0)) is Some {
                        Some((n, ps, cs, k2))
                    } else {
                        None
                    },
                    None => None,
                }
            },
            None => None,
        }
    }
}

/// What a module has read so far: the names bound, the types declared, the types
/// declared for names (annotations), the labels added (name and type), the assignments
/// (name, expression, whether silent, declared type) and whether one of them is `main`.
pub type ModuleState = (
    Set<Seq<char>>,
    Seq<(Seq<char>, TypeV)>,
    Seq<(Seq<char>, TypeV)>,
    Seq<(Seq<char>, TypeV)>,
    Seq<(Seq<char>, Term, bool, Option<TypeV>)>,
    bool,
);

/// The type declared first for the name `n` among `tam`.
pub open spec fn tam_lookup(tam: Seq<(Seq<char>, TypeV)>, n: Seq<char>) -> Option<TypeV>
    decreases tam.len(),
{
    if tam.len() == 0 {
        None
    } else if tam[0].0 == n {
        Some(tam[0].1)
    } else {
        tam_lookup(tam.drop_first(), n)
    }
}

/// `tam_lookup` finds the first entry named `n`, if there is one.
pub proof fn lemma_tam_lookup(tam: Seq<(Seq<char>, TypeV)>, n: Seq<char>, x: int)
    requires
        0 <= x <= tam.len(),
        x < tam.len() ==> tam[x].0 == n,
        forall|y: int| 0 <= y < x ==> tam[y].0 != n,
    ensures
        tam_lookup(tam, n) == if x < tam.len() { Some(tam[x].1) } else { None },
    decreases tam.len(),
{
    if tam.len() > 0 && x > 0 {
        assert(tam[0].0 != n);
        assert forall|y: int| 0 <= y < x - 1 implies tam.drop_first()[y].0 != n by {
            assert(tam.drop_first()[y] == tam[y + 1]);
        }
        lemma_tam_lookup(tam.drop_first(), n, x - 1);
    }
}

/// `type Name = type` from `i` on: the name, the type (without type variables), and
/// where it ends.
pub open spec fn alias_decl(ts: Seq<(Token, usize, usize)>, i: int, tm: Seq<(Seq<char>, TypeV)>) -> Option<(Seq<char>, TypeV, int)> {
    let i1 = adv(ts, i);
    let i2 = adv(ts, i1);
    if tt_at(ts, i) == TokenType::KWType && tt_at(ts, i1) == TokenType::UppercaseId && tt_at(ts, i2) == TokenType::Assignment {
        match ty_expr(ts, adv(ts, i2), tm, Some(Seq::empty())) {
            Some((t, k)) => Some((val_at(ts, i1), t, k)),
            None => None,
        }
    } else {
        None
    }
}

/// The constructors of `cs` whose types have fewer arrows than positions can count.
pub open spec fn countable(cs: Seq<(Seq<char>, TypeV)>) -> Seq<(Seq<char>, TypeV)>
    decreases cs.len(),
{
    if cs.len() == 0 {
        cs
    } else if tv_arity(cs.last().1) < usize::MAX {
        countable(cs.drop_last()).push(cs.last())
    } else {
        countable(cs.drop_last())
    }
}

/// A module from `j` on, after the state `st`: assignments (`name = ..`, possibly after
/// `@`), type declarations for names (`name :: type`, each name once), type aliases,
/// data declarations and empty lines, up to the end. An assignment to a name with a
/// declared type adds a label of that type; so does each constructor of a data
/// declaration.
pub open spec fn m_body(ts: Seq<(Token, usize, usize)>, j: int, st: ModuleState) -> Option<ModuleState>
    decreases ts.len() - j,
{
    let (b, tm, tam, ls, asg, main) = st;
    if !at_token(ts, j) {
        None
    } else {
        let tt = tt_at(ts, j);
        let next = tt_at(ts, j + 1);
        if tt == TokenType::Id || tt == TokenType::Silence {
            if next == TokenType::Assignment || next == TokenType::Id || next == TokenType::LParen || tt == TokenType::Silence {
                match e_assign(ts, j, b, tm) {
                    Some((n, x, s, k)) => if j < k <= ts.len() {
                        let ty = tam_lookup(tam, n);
                        let ls2 = match ty {
                            Some(t) => if tv_arity(t) < usize::MAX {
                                ls.push((n, t))
                            } else {
                                ls
                            },
                            None => ls,
                        };
                        m_body(ts, k, (b.insert(n), tm, tam, ls2, asg.push((n, x, s, ty)), main || n == "main"@))
                    } else {
                        None
                    },
                    None => None,
                }
            } else if next == TokenType::DoubleColon {
                let n = val_at(ts, j);
                if tam_lookup(tam, n) is Some {
                    None
                } else {
                    match ty_expr(ts, adv(ts, adv(ts, j)), tm, None) {
                        Some((u, k)) => if j < k <= ts.len() {
                            m_body(ts, k, (b, tm, tam.push((n, annot_of(u))), ls, asg, main))
                        } else {
                            None
                        },
                        None => None,
                    }
                }
            } else {
                None
            }
        } else if tt == TokenType::KWType {
            match alias_decl(ts, j, tm) {
                Some((n, t, k)) => if tm_get(tm, n) is Some || !(j < k <= ts.len()) {
                    None
                } else {
                    m_body(ts, k, (b, tm.push((n, TypeV::Alias(n, Box::new(t)))), tam, ls, asg, main))
                },
                None => None,
            }
        } else if tt == TokenType::KWData {
            match d_data(ts, j, tm, b) {
                Some((n, ps, cs, k)) => if j < k <= ts.len() {
                    m_body(
                        ts,
                        k,
                        (
                            bind_names(b, cs.map_values(|c: (Seq<char>, TypeV)| c.0))->0,
                            tm.push((n, tv_fa(ps, data_type(n, ps)))),
                            tam,
                            ls + countable(cs),
                            asg,
                            main,
                        ),
                    )
                } else {
                    None
                },
                None => None,
            }
        } else if tt == TokenType::Newline {
            if j < adv(ts, j) {
                m_body(ts, adv(ts, j), st)
            } else {
                None
            }
        } else if tt == TokenType::EOF {
            Some(st)
        } else {
            None
        }
    }
}

/// The label the labels `ls` (added in order) leave at arity `a` for the name `n`: the
/// type of the last of them so named with that many arrows.
pub open spec fn added_at(ls: Seq<(Seq<char>, TypeV)>, a: int, n: Seq<char>) -> Option<TypeV>
    decreases ls.len(),
{
    if ls.len() == 0 {
        None
    } else if ls.last().0 == n && tv_arity(ls.last().1) == a {
        Some(ls.last().1)
    } else {
        added_at(ls.drop_last(), a, n)
    }
}

/// Whether a token of kind `tt` is a literal.
pub open spec fn lit_tt(tt: TokenType) -> bool {
    tt == TokenType::IntLit || tt == TokenType::FloatLit || tt == TokenType::BoolLit || tt == TokenType::CharLit
}

/// Whether a token of kind `tt` ends an expression.
pub open spec fn ends_expr(tt: TokenType) -> bool {
    ||| tt == TokenType::RParen
    ||| tt == TokenType::EOF
    ||| tt == TokenType::Newline
    ||| tt == TokenType::DoubleColon
    ||| tt == TokenType::LBrace
    ||| tt == TokenType::RBrace
    ||| tt == TokenType::Bar
    ||| tt == TokenType::Then
    ||| tt == TokenType::Else
}

/// Whether a token of kind `tt` ends a pattern.
pub open spec fn ends_pattern(tt: TokenType) -> bool {
    ||| tt == TokenType::RParen
    ||| tt == TokenType::RArrow
    ||| tt == TokenType::LBrace
    ||| tt == TokenType::EOF
    ||| tt == TokenType::DoubleColon
    ||| tt == TokenType::Newline
    ||| tt == TokenType::Assignment
}

/// The names bound once the variable (or pair of variables) `t` of an abstraction is:
/// nothing where one of its names is bound already; `_` binds nothing.
pub open spec fn bind_term(b: Set<Seq<char>>, t: Term) -> Option<Set<Seq<char>>>
    decreases t,
{
    match t {
        Term::Id(_, v) => if b.contains(v) {
            None
        } else if v == "_"@ {
            Some(b)
        } else {
            Some(b.insert(v))
        },
        Term::Pair(x, y) => match bind_term(b, *x) {
            Some(b1) => bind_term(b1, *y),
            None => None,
        },
        _ => Some(b),
    }
}

/// The names the variable (or pair of variables) `t` binds.
pub open spec fn tnames(t: Term) -> Set<Seq<char>>
    decreases t,
{
    match t {
        Term::Id(_, v) => if v == "_"@ {
            Set::empty()
        } else {
            set![v]
        },
        Term::Pair(x, y) => tnames(*x) + tnames(*y),
        _ => Set::empty(),
    }
}

/// Binding adds the names of the variable, none of which was bound.
pub proof fn lemma_bind_term(b: Set<Seq<char>>, t: Term)
    ensures
        bind_term(b, t) matches Some(b2) ==> b2 == b + tnames(t) && b.disjoint(tnames(t)),
    decreases t,
{
    match t {
        Term::Id(_, v) => {
            if !b.contains(v) && v != "_"@ {
                assert(b.insert(v) =~= b + set![v]);
            } else if !b.contains(v) {
                assert(b =~= b + Set::<Seq<char>>::empty());
            }
        },
        Term::Pair(x, y) => {
            lemma_bind_term(b, *x);
            if let Some(b1) = bind_term(b, *x) {
                lemma_bind_term(b1, *y);
                if let Some(b2) = bind_term(b1, *y) {
                    assert(b2 =~= b + (tnames(*x) + tnames(*y)));
                }
            }
        },
        _ => {
            assert(b =~= b + Set::<Seq<char>>::empty());
        },
    }
}

/// Unbinding the names of a variable undoes binding it.
pub proof fn lemma_unbind_term(b: Set<Seq<char>>, t: Term)
    requires
        bind_term(b, t) is Some,
    ensures
        bind_term(b, t)->0 - tnames(t) == b,
{
    lemma_bind_term(b, t);
    assert(bind_term(b, t)->0 - tnames(t) =~= b);
}

/// Once a variable fails to bind, binding more fails too.
pub proof fn lemma_bind_all_none(b: Set<Seq<char>>, args: Seq<Term>, k: nat, m: nat)
    requires
        k <= m <= args.len(),
        bind_all(b, args, k) is None,
    ensures
        bind_all(b, args, m) is None,
    decreases m - k,
{
    if k < m {
        lemma_bind_all_none(b, args, k + 1, m);
    }
}

/// Once the variables bind, so do the first of them.
pub proof fn lemma_bind_all_some(b: Set<Seq<char>>, args: Seq<Term>, k: nat, m: nat)
    requires
        k <= m <= args.len(),
        bind_all(b, args, m) is Some,
    ensures
        bind_all(b, args, k) is Some,
{
    if bind_all(b, args, k) is None {
        lemma_bind_all_none(b, args, k, m);
    }
}

/// `bind_term` for the first `k` variables, in order.
pub open spec fn bind_all(b: Set<Seq<char>>, args: Seq<Term>, k: nat) -> Option<Set<Seq<char>>>
    decreases k,
{
    if k == 0 || k > args.len() {
        Some(b)
    } else {
        match bind_all(b, args, (k - 1) as nat) {
            Some(b1) => bind_term(b1, args[k - 1]),
            None => None,
        }
    }
}

/// The abstractions over `args`, the first outermost, around `body`; `fy` tells whether
/// they were written before `=` of an assignment.
pub open spec fn wrap(args: Seq<Term>, body: Term, fy: bool) -> Term
    decreases args.len(),
{
    if args.len() == 0 {
        body
    } else {
        Term::Abs(Box::new(args[0]), Box::new(wrap(args.drop_first(), body, fy)), false, fy)
    }
}

/// An assignment from `i` on: `name = expression`, or `name x y = expression` (the
/// abstractions over `x` and `y`), possibly after `@` (which makes it silent); the name
/// must not be bound yet, and is bound in the expression. Gives the name, the
/// expression, whether it is silent, and where it ends.
pub open spec fn e_assign(ts: Seq<(Token, usize, usize)>, i: int, b: Set<Seq<char>>, tm: Seq<(Seq<char>, TypeV)>) -> Option<(Seq<char>, Term, bool, int)> {
    let s = tt_at(ts, i) == TokenType::Silence;
    let i1 = if s { adv(ts, i) } else { i };
    if !at_token(ts, i) || tt_at(ts, i1) != TokenType::Id {
        None
    } else {
        let name = val_at(ts, i1);
        let j = adv(ts, i1);
        let tt = tt_at(ts, j);
        if b.contains(name) {
            None
        } else if tt == TokenType::Assignment {
            match e_expr(ts, adv(ts, j), b.insert(name), tm) {
                Some((x, k)) => Some((name, x, s, k)),
                None => None,
            }
        } else if tt == TokenType::Id || tt == TokenType::LParen {
            match e_abstraction(ts, j, b.insert(name), tm, true) {
                Some((x, k)) => Some((name, x, s, k)),
                None => None,
            }
        } else {
            None
        }
    }
}

/// An expression: a primary expression, then what `e_loop` reads after it.
pub open spec fn e_expr(ts: Seq<(Token, usize, usize)>, i: int, b: Set<Seq<char>>, tm: Seq<(Seq<char>, TypeV)>) -> Option<(Term, int)>
    decreases ts.len() - i, 2nat,
{
    if !at_token(ts, i) {
        None
    } else {
        match e_primary(ts, i, b, tm) {
            Some((left, j)) => if i < j <= ts.len() {
                e_loop(ts, j, left, b, tm)
            } else {
                None
            },
            None => None,
        }
    }
}

/// After the expression `left`, from `j` on: a bracketed expression or a primary one is
/// an argument; `$` applies `left` to the rest; an infix operator takes `left` and the
/// rest as its operands; `,` makes a pair with the rest.
pub open spec fn e_loop(ts: Seq<(Token, usize, usize)>, j: int, left: Term, b: Set<Seq<char>>, tm: Seq<(Seq<char>, TypeV)>) -> Option<(Term, int)>
    decreases ts.len() - j, 2nat,
{
    if !at_token(ts, j) {
        None
    } else {
        let tt = tt_at(ts, j);
        if tt == TokenType::LParen {
            match e_expr(ts, adv(ts, j), b, tm) {
                Some((right, k)) => if tt_at(ts, k) == TokenType::RParen && j < k < ts.len() {
                    e_loop(ts, adv(ts, k), Term::App(Box::new(left), Box::new(right), false), b, tm)
                } else {
                    None
                },
                None => None,
            }
        } else if tt == TokenType::Dollar {
            match e_expr(ts, adv(ts, j), b, tm) {
                Some((right, k)) => if tt_at(ts, k) != TokenType::RParen && j < k <= ts.len() {
                    e_loop(ts, k, Term::App(Box::new(left), Box::new(right), true), b, tm)
                } else {
                    None
                },
                None => None,
            }
        } else if ends_expr(tt) {
            Some((left, j))
        } else if tt == TokenType::Comma {
            match e_expr(ts, adv(ts, j), b, tm) {
                Some((right, k)) => if j < k <= ts.len() {
                    e_loop(ts, k, Term::Pair(Box::new(left), Box::new(right)), b, tm)
                } else {
                    None
                },
                None => None,
            }
        } else if tt == TokenType::Lambda || tt == TokenType::Match {
            match (if tt == TokenType::Lambda {
                e_abstraction(ts, adv(ts, j), b, tm, false)
            } else {
                e_match(ts, adv(ts, j), b, tm)
            }) {
                Some((right, k)) => if j < k <= ts.len() {
                    e_loop(ts, k, Term::App(Box::new(left), Box::new(right), false), b, tm)
                } else {
                    None
                },
                None => None,
            }
        } else if lit_tt(tt) || tt == TokenType::UppercaseId || (tt == TokenType::Id && !infix_name(val_at(ts, j))) {
            match e_primary(ts, j, b, tm) {
                Some((right, k)) => if j < k <= ts.len() {
                    e_loop(ts, k, Term::App(Box::new(left), Box::new(right), false), b, tm)
                } else {
                    None
                },
                None => None,
            }
        } else if tt == TokenType::Id {
            match e_primary(ts, j, b, tm) {
                Some((op, k1)) => if j < k1 <= ts.len() {
                    match e_expr(ts, k1, b, tm) {
                        Some((right, k2)) => if k1 < k2 <= ts.len() {
                            e_loop(
                                ts,
                                k2,
                                Term::App(
                                    Box::new(Term::App(Box::new(op), Box::new(left), false)),
                                    Box::new(right),
                                    false,
                                ),
                                b,
                                tm,
                            )
                        } else {
                            None
                        },
                        None => None,
                    }
                } else {
                    None
                },
                None => None,
            }
        } else {
            None
        }
    }
}

/// A primary expression: a bound identifier, a literal, a match, an abstraction, an
/// expression after `(` or `$` (whose closing token is passed over), or
/// `if .. then .. else ..` (an `if` followed by `(` is an identifier).
pub open spec fn e_primary(ts: Seq<(Token, usize, usize)>, i: int, b: Set<Seq<char>>, tm: Seq<(Seq<char>, TypeV)>) -> Option<(Term, int)>
    decreases ts.len() - i, 1nat,
{
    if !at_token(ts, i) {
        None
    } else {
        let tt = tt_at(ts, i);
        let v = val_at(ts, i);
        let n = adv(ts, i);
        if tt == TokenType::Id || tt == TokenType::UppercaseId {
            if tt == TokenType::Id && v == "if"@ && tt_at(ts, n) != TokenType::LParen {
                e_ite(ts, n, b, tm)
            } else if b.contains(v) {
                Some((Term::Id(tt, v), n))
            } else {
                None
            }
        } else if lit_tt(tt) {
            Some((Term::Lit(tt, v), n))
        } else if tt == TokenType::Match {
            e_match(ts, n, b, tm)
        } else if tt == TokenType::Lambda {
            e_abstraction(ts, n, b, tm, false)
        } else if tt == TokenType::LParen || tt == TokenType::Dollar {
            match e_expr(ts, n, b, tm) {
                Some((e, k)) => Some((e, adv(ts, k))),
                None => None,
            }
        } else {
            None
        }
    }
}

/// A parse error's value: its message, line and column.
pub type PErrV = (Seq<char>, usize, usize);

/// An error with message `m` at the position of token `k`, where there is one.
pub open spec fn err_at_tok(ts: Seq<(Token, usize, usize)>, m: Seq<char>, k: int) -> Option<PErrV> {
    if 0 <= k < ts.len() {
        Some((m, ts[k].1, ts[k].2))
    } else {
        None
    }
}

/// Why no expression is read from `i` (see `e_expr`): the error of the first step that
/// fails, where that step is the expression's own or that of an `if .. then .. else ..`;
/// `None` where it lies inside an abstraction or a match.
pub open spec fn e_expr_err(ts: Seq<(Token, usize, usize)>, i: int, b: Set<Seq<char>>, tm: Seq<(Seq<char>, TypeV)>) -> Option<PErrV>
    decreases ts.len() - i, 2nat,
{
    if !at_token(ts, i) {
        None
    } else {
        match e_primary(ts, i, b, tm) {
            None => e_primary_err(ts, i, b, tm),
            Some((left, j)) => if i < j <= ts.len() {
                e_loop_err(ts, j, left, b, tm)
            } else {
                None
            },
        }
    }
}

/// Why the rest of an expression after `left` fails from `j` (see `e_loop`).
pub open spec fn e_loop_err(ts: Seq<(Token, usize, usize)>, j: int, left: Term, b: Set<Seq<char>>, tm: Seq<(Seq<char>, TypeV)>) -> Option<PErrV>
    decreases ts.len() - j, 2nat,
{
    if !at_token(ts, j) {
        None
    } else {
        let tt = tt_at(ts, j);
        if tt == TokenType::LParen {
            match e_expr(ts, adv(ts, j), b, tm) {
                None => e_expr_err(ts, adv(ts, j), b, tm),
                Some((right, k)) => if tt_at(ts, k) == TokenType::RParen && j < k < ts.len() {
                    e_loop_err(ts, adv(ts, k), Term::App(Box::new(left), Box::new(right), false), b, tm)
                } else {
                    err_at_tok(ts, "Expected closing parenthesis"@, k)
                },
            }
        } else if tt == TokenType::Dollar {
            match e_expr(ts, adv(ts, j), b, tm) {
                None => e_expr_err(ts, adv(ts, j), b, tm),
                Some((right, k)) => if tt_at(ts, k) != TokenType::RParen && j < k <= ts.len() {
                    e_loop_err(ts, k, Term::App(Box::new(left), Box::new(right), true), b, tm)
                } else if tt_at(ts, k) == TokenType::RParen {
                    err_at_tok(ts, "Unexpected closing parenthesis"@, k)
                } else {
                    None
                },
            }
        } else if ends_expr(tt) {
            None
        } else if tt == TokenType::Comma {
            match e_expr(ts, adv(ts, j), b, tm) {
                None => e_expr_err(ts, adv(ts, j), b, tm),
                Some((right, k)) => if j < k <= ts.len() {
                    e_loop_err(ts, k, Term::Pair(Box::new(left), Box::new(right)), b, tm)
                } else {
                    None
                },
            }
        } else if tt == TokenType::Lambda || tt == TokenType::Match {
            match (if tt == TokenType::Lambda {
                e_abstraction(ts, adv(ts, j), b, tm, false)
            } else {
                e_match(ts, adv(ts, j), b, tm)
            }) {
                Some((right, k)) => if j < k <= ts.len() {
                    e_loop_err(ts, k, Term::App(Box::new(left), Box::new(right), false), b, tm)
                } else {
                    None
                },
                None => None,
            }
        } else if lit_tt(tt) || tt == TokenType::UppercaseId || (tt == TokenType::Id && !infix_name(val_at(ts, j))) {
            match e_primary(ts, j, b, tm) {
                None => e_primary_err(ts, j, b, tm),
                Some((right, k)) => if j < k <= ts.len() {
                    e_loop_err(ts, k, Term::App(Box::new(left), Box::new(right), false), b, tm)
                } else {
                    None
                },
            }
        } else if tt == TokenType::Id {
            match e_primary(ts, j, b, tm) {
                None => e_primary_err(ts, j, b, tm),
                Some((op, k1)) => if j < k1 <= ts.len() {
                    match e_expr(ts, k1, b, tm) {
                        None => e_expr_err(ts, k1, b, tm),
                        Some((right, k2)) => if k1 < k2 <= ts.len() {
                            e_loop_err(
                                ts,
                                k2,
                                Term::App(
                                    Box::new(Term::App(Box::new(op), Box::new(left), false)),
                                    Box::new(right),
                                    false,
                                ),
                                b,
                                tm,
                            )
                        } else {
                            None
                        },
                    }
                } else {
                    None
                },
            }
        } else {
            err_at_tok(ts, "Unexpected token in expression: "@ + val_at(ts, j), j)
        }
    }
}

/// Why no primary expression is read from `i` (see `e_primary`).
pub open spec fn e_primary_err(ts: Seq<(Token, usize, usize)>, i: int, b: Set<Seq<char>>, tm: Seq<(Seq<char>, TypeV)>) -> Option<PErrV>
    decreases ts.len() - i, 1nat,
{
    if !at_token(ts, i) {
        None
    } else {
        let tt = tt_at(ts, i);
        let v = val_at(ts, i);
        let n = adv(ts, i);
        if tt == TokenType::Id || tt == TokenType::UppercaseId {
            if tt == TokenType::Id && v == "if"@ && tt_at(ts, n) != TokenType::LParen {
                e_ite_err(ts, n, b, tm)
            } else if b.contains(v) {
                None
            } else {
                err_at_tok(ts, "Unbound identifier: "@ + v, n)
            }
        } else if lit_tt(tt) || tt == TokenType::Match || tt == TokenType::Lambda {
            None
        } else if tt == TokenType::LParen || tt == TokenType::Dollar {
            match e_expr(ts, n, b, tm) {
                None => e_expr_err(ts, n, b, tm),
                Some(_) => None,
            }
        } else {
            err_at_tok(ts, "Unexpected Token in primary: "@ + v, n)
        }
    }
}

/// Why no `c then x else y` is read from `i`, after `if` (see `e_ite`).
pub open spec fn e_ite_err(ts: Seq<(Token, usize, usize)>, i: int, b: Set<Seq<char>>, tm: Seq<(Seq<char>, TypeV)>) -> Option<PErrV>
    decreases ts.len() - i, 3nat,
{
    if !at_token(ts, i) {
        None
    } else {
        match e_expr(ts, i, b, tm) {
            None => e_expr_err(ts, i, b, tm),
            Some((_, k1)) => if i < k1 < ts.len() && tt_at(ts, k1) == TokenType::Then {
                match e_expr(ts, adv(ts, k1), b, tm) {
                    None => e_expr_err(ts, adv(ts, k1), b, tm),
                    Some((_, k2)) => if k1 < k2 < ts.len() && tt_at(ts, k2) == TokenType::Else {
                        match e_expr(ts, adv(ts, k2), b, tm) {
                            None => e_expr_err(ts, adv(ts, k2), b, tm),
                            Some(_) => None,
                        }
                    } else if k1 < k2 < ts.len() {
                        err_at_tok(ts, "Expected \"else\", got: "@ + val_at(ts, k2), adv(ts, k2))
                    } else {
                        None
                    },
                }
            } else if i < k1 < ts.len() {
                err_at_tok(ts, "Expected \"then\", got: "@ + val_at(ts, k1), adv(ts, k1))
            } else {
                None
            },
        }
    }
}

/// `c then x else y` after `if`: the inbuilt `if` applied to the three.
pub open spec fn e_ite(ts: Seq<(Token, usize, usize)>, i: int, b: Set<Seq<char>>, tm: Seq<(Seq<char>, TypeV)>) -> Option<(Term, int)>
    decreases ts.len() - i, 3nat,
{
    if !at_token(ts, i) {
        None
    } else {
        match e_expr(ts, i, b, tm) {
            Some((c, k1)) => if i < k1 < ts.len() && tt_at(ts, k1) == TokenType::Then {
                match e_expr(ts, adv(ts, k1), b, tm) {
                    Some((x, k2)) => if k1 < k2 < ts.len() && tt_at(ts, k2) == TokenType::Else {
                        match e_expr(ts, adv(ts, k2), b, tm) {
                            Some((y, k3)) => Some((
                                Term::App(
                                    Box::new(Term::App(
                                        Box::new(Term::App(Box::new(Term::Id(TokenType::Id, "if"@)), Box::new(c), false)),
                                        Box::new(x),
                                        false,
                                    )),
                                    Box::new(y),
                                    false,
                                ),
                                k3,
                            )),
                            None => None,
                        }
                    } else {
                        None
                    },
                    None => None,
                }
            } else {
                None
            },
            None => None,
        }
    }
}

/// A match after `match`: the inspected expression, optionally `:: type`, `{`, then the
/// cases (see `m_loop`).
pub open spec fn e_match(ts: Seq<(Token, usize, usize)>, i: int, b: Set<Seq<char>>, tm: Seq<(Seq<char>, TypeV)>) -> Option<(Term, int)>
    decreases ts.len() - i, 3nat,
{
    if !at_token(ts, i) {
        None
    } else {
        match e_expr(ts, i, b, tm) {
            Some((u, k1)) => if i < k1 < ts.len() {
                let t = tt_at(ts, k1);
                if t == TokenType::DoubleColon {
                    match ty_expr(ts, adv(ts, k1), tm, None) {
                        Some((_, k2)) => if k1 < k2 < ts.len() && tt_at(ts, k2) == TokenType::LBrace {
                            m_loop(ts, adv(ts, k2), seq![u], b, tm)
                        } else {
                            None
                        },
                        None => None,
                    }
                } else if t == TokenType::LBrace {
                    m_loop(ts, adv(ts, k1), seq![u], b, tm)
                } else {
                    None
                }
            } else {
                None
            },
            None => None,
        }
    }
}

/// The cases of a match from `j` on, after the parts `parts` read so far: line breaks are
/// skipped, `| pattern -> expression` adds a case (its expression read with the
/// pattern's variables bound), `}` ends the match.
pub open spec fn m_loop(ts: Seq<(Token, usize, usize)>, j: int, parts: Seq<Term>, b: Set<Seq<char>>, tm: Seq<(Seq<char>, TypeV)>) -> Option<(Term, int)>
    decreases ts.len() - j, 2nat,
{
    if !at_token(ts, j) {
        None
    } else {
        let tt = tt_at(ts, j);
        if tt == TokenType::RBrace {
            Some((Term::Match(parts), adv(ts, j)))
        } else if tt == TokenType::Newline {
            m_loop(ts, adv(ts, j), parts, b, tm)
        } else if tt == TokenType::Bar {
            match p_pattern(ts, adv(ts, j), b, true) {
                Some((pat, k1, names)) => if j < k1 < ts.len() && tt_at(ts, k1) == TokenType::RArrow {
                    match e_expr(ts, adv(ts, k1), b + names.to_set(), tm) {
                        Some((x, k2)) => if k1 < k2 <= ts.len() {
                            m_loop(ts, k2, parts.push(pat).push(x), b, tm)
                        } else {
                            None
                        },
                        None => None,
                    }
                } else {
                    None
                },
                None => None,
            }
        } else {
            None
        }
    }
}

/// An abstraction after `\` (or the variables of `f x y = ..` when `is_assign`): its
/// variables up to `.` (or `=`), then its body read with them bound.
pub open spec fn e_abstraction(ts: Seq<(Token, usize, usize)>, i: int, b: Set<Seq<char>>, tm: Seq<(Seq<char>, TypeV)>, is_assign: bool) -> Option<(Term, int)>
    decreases ts.len() - i, 3nat,
{
    if !at_token(ts, i) {
        None
    } else {
        a_loop(ts, i, Seq::empty(), b, tm, is_assign)
    }
}

/// The variables of an abstraction from `j` on, after `args`.
pub open spec fn a_loop(ts: Seq<(Token, usize, usize)>, j: int, args: Seq<Term>, b: Set<Seq<char>>, tm: Seq<(Seq<char>, TypeV)>, is_assign: bool) -> Option<(Term, int)>
    decreases ts.len() - j, 2nat,
{
    if !at_token(ts, j) {
        None
    } else {
        let tt = tt_at(ts, j);
        if tt == TokenType::Id || tt == TokenType::LParen {
            match a_var(ts, j, tm) {
                Some((v, k)) => if j < k <= ts.len() {
                    a_loop(ts, k, args.push(v), b, tm, is_assign)
                } else {
                    None
                },
                None => None,
            }
        } else if (tt == TokenType::Dot && !is_assign) || (tt == TokenType::Assignment && is_assign) {
            match bind_all(b, args, args.len()) {
                Some(b2) => match e_expr(ts, adv(ts, j), b2, tm) {
                    Some((body, k)) => Some((wrap(args, body, is_assign), k)),
                    None => None,
                },
                None => None,
            }
        } else {
            None
        }
    }
}

/// A variable of an abstraction: an identifier (optionally `:: type`) or a pair of
/// variables, possibly in brackets.
pub open spec fn a_var(ts: Seq<(Token, usize, usize)>, i: int, tm: Seq<(Seq<char>, TypeV)>) -> Option<(Term, int)>
    decreases ts.len() - i, 1nat,
{
    if !at_token(ts, i) {
        None
    } else {
        match a_var_primary(ts, i, tm) {
            Some((left, k1)) => if i < k1 < ts.len() {
                let tt = tt_at(ts, k1);
                if tt == TokenType::Comma {
                    match a_var(ts, adv(ts, k1), tm) {
                        Some((right, k2)) => Some((Term::Pair(Box::new(left), Box::new(right)), k2)),
                        None => None,
                    }
                } else if tt == TokenType::DoubleColon {
                    match ty_expr(ts, adv(ts, k1), tm, None) {
                        Some((_, k2)) => Some((left, k2)),
                        None => None,
                    }
                } else if tt == TokenType::RParen {
                    Some((left, adv(ts, k1)))
                } else {
                    Some((left, k1))
                }
            } else {
                None
            },
            None => None,
        }
    }
}

pub open spec fn a_var_primary(ts: Seq<(Token, usize, usize)>, i: int, tm: Seq<(Seq<char>, TypeV)>) -> Option<(Term, int)>
    decreases ts.len() - i, 0nat,
{
    if !at_token(ts, i) {
        None
    } else {
        let tt = tt_at(ts, i);
        if tt == TokenType::Id {
            Some((Term::Id(TokenType::Id, val_at(ts, i)), adv(ts, i)))
        } else if tt == TokenType::LParen {
            a_var(ts, adv(ts, i), tm)
        } else {
            None
        }
    }
}

/// A pattern: primary patterns applied to one another, and pairs. With `unpack`, lower
/// case identifiers are variables the pattern binds (they must not be bound already);
/// the third part lists them.
pub open spec fn p_pattern(ts: Seq<(Token, usize, usize)>, i: int, b: Set<Seq<char>>, unpack: bool) -> Option<(Term, int, Seq<Seq<char>>)>
    decreases ts.len() - i, 2nat,
{
    if !at_token(ts, i) {
        None
    } else {
        match p_primary(ts, i, b, unpack) {
            Some((left, j, ns)) => if i < j <= ts.len() {
                p_loop(ts, j, left, ns, b, unpack)
            } else {
                None
            },
            None => None,
        }
    }
}

pub open spec fn p_loop(ts: Seq<(Token, usize, usize)>, j: int, left: Term, ns: Seq<Seq<char>>, b: Set<Seq<char>>, unpack: bool) -> Option<(Term, int, Seq<Seq<char>>)>
    decreases ts.len() - j, 2nat,
{
    if !at_token(ts, j) {
        None
    } else {
        let tt = tt_at(ts, j);
        if tt == TokenType::LParen {
            match p_pattern(ts, adv(ts, j), b, unpack) {
                Some((right, k, ns2)) => if j < k < ts.len() {
                    p_loop(ts, adv(ts, k), Term::App(Box::new(left), Box::new(right), false), ns + ns2, b, unpack)
                } else {
                    None
                },
                None => None,
            }
        } else if ends_pattern(tt) {
            Some((left, j, ns))
        } else if tt == TokenType::Comma {
            match p_pattern(ts, adv(ts, j), b, unpack) {
                Some((right, k, ns2)) => if j < k <= ts.len() {
                    p_loop(ts, k, Term::Pair(Box::new(left), Box::new(right)), ns + ns2, b, unpack)
                } else {
                    None
                },
                None => None,
            }
        } else if lit_tt(tt) || tt == TokenType::Id || tt == TokenType::UppercaseId {
            match p_primary(ts, j, b, unpack) {
                Some((right, k, ns2)) => if j < k <= ts.len() {
                    p_loop(ts, k, Term::App(Box::new(left), Box::new(right), false), ns + ns2, b, unpack)
                } else {
                    None
                },
                None => None,
            }
        } else {
            None
        }
    }
}

/// A primary pattern: a bound constructor, `_`, a variable, a literal, or a bracketed
/// pattern (whose closing token is passed over).
pub open spec fn p_primary(ts: Seq<(Token, usize, usize)>, i: int, b: Set<Seq<char>>, unpack: bool) -> Option<(Term, int, Seq<Seq<char>>)>
    decreases ts.len() - i, 1nat,
{
    if !at_token(ts, i) {
        None
    } else {
        let tt = tt_at(ts, i);
        let v = val_at(ts, i);
        let n = adv(ts, i);
        if tt == TokenType::Id || tt == TokenType::UppercaseId {
            let c = v[0];
            if 'A' <= c && c <= 'Z' {
                if b.contains(v) {
                    Some((Term::Id(tt, v), n, Seq::empty()))
                } else {
                    None
                }
            } else if c == '_' {
                Some((Term::Id(tt, v), n, Seq::empty()))
            } else if 'a' <= c && c <= 'z' {
                if unpack {
                    if b.contains(v) {
                        None
                    } else {
                        Some((Term::Id(tt, v), n, seq![v]))
                    }
                } else if b.contains(v) {
                    Some((Term::Id(tt, v), n, Seq::empty()))
                } else {
                    None
                }
            } else {
                None
            }
        } else if lit_tt(tt) {
            Some((Term::Lit(tt, v), n, Seq::empty()))
        } else if tt == TokenType::LParen {
            match p_pattern(ts, n, b, unpack) {
                Some((e, k, ns)) => Some((e, adv(ts, k), ns)),
                None => None,
            }
        } else {
            None
        }
    }
}

} // verus!
