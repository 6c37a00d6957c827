//! Turning the existential type variables left in an inferred type into quantified type
//! variables.
use vstd::prelude::*;

use crate::types::{names, names_contain, names_has, spec_num_id, tv_fa, tv_tvs, Type, TypeV, views};

verus! {

/// `s` with later repetitions removed.
pub open spec fn dedup(s: Seq<nat>) -> Seq<nat>
    decreases s.len(),
{
    if s.len() == 0 {
        s
    } else {
        let d = dedup(s.drop_last());
        if d.contains(s.last()) {
            d
        } else {
            d.push(s.last())
        }
    }
}

/// The existentials of `t` in the order they are met (the sides of functions and
/// products without repetition).
pub open spec fn ord_exs(t: TypeV) -> Seq<nat>
    decreases t, 0nat,
{
    match t {
        TypeV::Existential(n) => seq![n],
        TypeV::Forall(_, b) => ord_exs(*b),
        TypeV::Function(a, b) => dedup(ord_exs(*a) + ord_exs(*b)),
        TypeV::Product(a, b) => dedup(ord_exs(*a) + ord_exs(*b)),
        TypeV::Union(_, s) => ord_exs_seq(s, s.len()),
        _ => Seq::empty(),
    }
}

pub open spec fn ord_exs_seq(s: Seq<TypeV>, k: nat) -> Seq<nat>
    decreases s, k,
{
    if k == 0 || k > s.len() {
        Seq::empty()
    } else {
        ord_exs_seq(s, (k - 1) as nat) + ord_exs(s[k - 1])
    }
}

/// `t` with the existential `ext` replaced by the type variable `name`.
pub open spec fn ex_to_tv(t: TypeV, ext: nat, name: Seq<char>) -> TypeV
    decreases t, 0nat,
{
    match t {
        TypeV::Existential(n) => if n == ext { TypeV::TypeVariable(name) } else { t },
        TypeV::Forall(v, b) => TypeV::Forall(v, Box::new(ex_to_tv(*b, ext, name))),
        TypeV::Function(a, b) => TypeV::Function(Box::new(ex_to_tv(*a, ext, name)), Box::new(ex_to_tv(*b, ext, name))),
        TypeV::Product(a, b) => TypeV::Product(Box::new(ex_to_tv(*a, ext, name)), Box::new(ex_to_tv(*b, ext, name))),
        TypeV::Union(n, s) => TypeV::Union(n, ex_to_tv_seq(s, ext, name, s.len())),
        _ => t,
    }
}

pub open spec fn ex_to_tv_seq(s: Seq<TypeV>, ext: nat, name: Seq<char>, k: nat) -> Seq<TypeV>
    decreases s, k,
{
    if k == 0 || k > s.len() {
        Seq::empty()
    } else {
        ex_to_tv_seq(s, ext, name, (k - 1) as nat).push(ex_to_tv(s[k - 1], ext, name))
    }
}

/// The first of the names numbered `j`, `j + 1`, ... (at most `tries` more) that is not
/// taken.
pub open spec fn free_from(taken: Set<Seq<char>>, j: nat, tries: nat) -> nat
    decreases tries,
{
    if !taken.contains(spec_num_id(j)) || tries == 0 || j + 1 > usize::MAX {
        j
    } else {
        free_from(taken, j + 1, (tries - 1) as nat)
    }
}

/// After the first `k` existentials of `exs`: the names taken, the names chosen for them
/// in order, and the type with those existentials replaced. The `i`-th existential gets
/// the first free name numbered from `i` on.
pub open spec fn gen_state(t: TypeV, exs: Seq<nat>, taken: Set<Seq<char>>, size: nat, k: nat) -> (Set<Seq<char>>, Seq<Seq<char>>, TypeV)
    decreases k,
{
    if k == 0 || k > exs.len() {
        (taken, Seq::empty(), t)
    } else {
        let (s, ch, u) = gen_state(t, exs, taken, size, (k - 1) as nat);
        let nm = spec_num_id(free_from(s, (k - 1) as nat, size + (k - 1) as nat));
        (s.insert(nm), ch.push(nm), ex_to_tv(u, exs[k - 1], nm))
    }
}

/// `t` quantified over its existentials, each renamed to a type variable of its own.
pub open spec fn forall_ify_spec(t: TypeV, size: nat) -> TypeV {
    let exs = ord_exs(t);
    let (_, ch, u) = gen_state(t, exs, tv_tvs(t), size, exs.len());
    tv_fa(ch, u)
}

/// Removes later repetitions.
fn dedup_exec(v: Vec<usize>) -> (r: Vec<usize>)
    ensures
        r@.map_values(|x: usize| x as nat) == dedup(v@.map_values(|x: usize| x as nat)),
{
    let ghost sv = v@.map_values(|x: usize| x as nat);
    let mut out: Vec<usize> = Vec::new();
    let mut k: usize = 0;
    while k < v.len()
        invariant
            k <= v@.len(),
            sv == v@.map_values(|x: usize| x as nat),
            out@.map_values(|x: usize| x as nat) == dedup(sv.take(k as int)),
        decreases v@.len() - k,
    {
        let x = v[k];
        assert(sv.take(k + 1).drop_last() =~= sv.take(k as int));
        let ghost d = out@.map_values(|x: usize| x as nat);
        let mut found = false;
        let mut j: usize = 0;
        while j < out.len()
            invariant
                j <= out@.len(),
                d == out@.map_values(|x: usize| x as nat),
                found <==> exists|i: int| 0 <= i < j && out@[i] == x,
            decreases out@.len() - j,
        {
            if out[j] == x {
                found = true;
            }
            j = j + 1;
        }
        proof {
            if found {
                let i = choose|i: int| 0 <= i < j && out@[i] == x;
                assert(d[i] == x as nat);
            } else {
                assert forall|i: int| 0 <= i < d.len() implies d[i] != x as nat by {
                    assert(d[i] == out@[i] as nat);
                }
            }
        }
        if !found {
            out.push(x);
            assert(out@.map_values(|x: usize| x as nat) =~= d.push(x as nat));
        }
        k = k + 1;
    }
    assert(sv.take(v@.len() as int) =~= sv);
    out
}

impl Type {
    /// The existentials of the type in the order they are met (see `ord_exs`).
    #[verifier::loop_isolation(false)]
    pub fn ordered_existentials(&self) -> (r: Vec<usize>)
        ensures
            r@.map_values(|x: usize| x as nat) == ord_exs(self@),
        decreases self,
    {
        match self {
            Type::Existential(n) => {
                let r = vec![*n];
                assert(r@.map_values(|x: usize| x as nat) =~= seq![*n as nat]);
                r
            },
            Type::Forall(_, b) => (&**b).ordered_existentials(),
            Type::Function(a, b) | Type::Product(a, b) => {
                let mut x = (&**a).ordered_existentials();
                let y = (&**b).ordered_existentials();
                let ghost xs = x@;
                let ghost ys = y@;
                let mut y = y;
                x.append(&mut y);
                assert(x@.map_values(|z: usize| z as nat) =~= xs.map_values(|z: usize| z as nat) + ys.map_values(|z: usize| z as nat));
                dedup_exec(x)
            },
            Type::Union(_, ts) => {
                proof { crate::types::lemma_union_view(*self); }
                let ghost sv = views(ts@);
                let mut out: Vec<usize> = Vec::new();
                let mut k: usize = 0;
                while k < ts.len()
                    invariant
                        k <= ts@.len(),
                        sv == views(ts@),
                        out@.map_values(|x: usize| x as nat) == ord_exs_seq(sv, k as nat),
                    decreases ts@.len() - k,
                {
                    proof { vstd::std_specs::vec::axiom_vec_index_decreases(*ts, k as int); }
                    let mut e = (&ts[k]).ordered_existentials();
                    let ghost os = out@;
                    let ghost es = e@;
                    out.append(&mut e);
                    assert(out@.map_values(|z: usize| z as nat) =~= os.map_values(|z: usize| z as nat) + es.map_values(|z: usize| z as nat));
                    k = k + 1;
                }
                out
            },
            _ => {
                let r: Vec<usize> = Vec::new();
                assert(r@.map_values(|x: usize| x as nat) =~= Seq::<nat>::empty());
                r
            },
        }
    }

    /// The type with the existential `ext` replaced by the type variable `name`.
    #[verifier::loop_isolation(false)]
    pub fn exist_to_tv(&self, ext: usize, name: &String) -> (r: Type)
        ensures
            r@ == ex_to_tv(self@, ext as nat, name@),
        decreases self,
    {
        match self {
            Type::Existential(n) => {
                if *n == ext {
                    Type::TypeVariable(name.clone())
                } else {
                    Type::Existential(*n)
                }
            },
            Type::Forall(v, b) => Type::Forall(v.clone(), Box::new((&**b).exist_to_tv(ext, name))),
            Type::Function(a, b) => Type::Function(
                Box::new((&**a).exist_to_tv(ext, name)),
                Box::new((&**b).exist_to_tv(ext, name)),
            ),
            Type::Product(a, b) => Type::Product(
                Box::new((&**a).exist_to_tv(ext, name)),
                Box::new((&**b).exist_to_tv(ext, name)),
            ),
            Type::Union(n, ts) => {
                proof { crate::types::lemma_union_view(*self); }
                let ghost sv = views(ts@);
                let mut out: Vec<Type> = Vec::new();
                let mut k: usize = 0;
                while k < ts.len()
                    invariant
                        k <= ts@.len(),
                        sv == views(ts@),
                        views(out@) == ex_to_tv_seq(sv, ext as nat, name@, k as nat),
                    decreases ts@.len() - k,
                {
                    proof { vstd::std_specs::vec::axiom_vec_index_decreases(*ts, k as int); }
                    let x = (&ts[k]).exist_to_tv(ext, name);
                    let ghost prev = out@;
                    out.push(x);
                    assert(views(out@) =~= views(prev).push(x@));
                    k = k + 1;
                }
                let r = Type::Union(n.clone(), out);
                proof { crate::types::lemma_union_view(r); }
                r
            },
            _ => self.deep_clone(),
        }
    }

    /// The type quantified over its existentials, each turned into a type variable named
    /// after its position among them, skipping names already used in the type.
    pub fn forall_ify(&self) -> (r: Type)
        ensures
            r@ == forall_ify_spec(self@, tv_tvs(self@).len()),
    {
        let mut tv_set = self.get_tvs_set();
        let ghost size = tv_set@.len() as nat;
        proof {
            let ns = names(tv_set@);
            assert(ns.no_duplicates()) by {
                assert forall|i: int, j: int| 0 <= i < ns.len() && 0 <= j < ns.len() && i != j implies ns[i] != ns[j] by {
                    if i < j {
                        assert(tv_set@[i]@ != tv_set@[j]@);
                    } else {
                        assert(tv_set@[j]@ != tv_set@[i]@);
                    }
                }
            }
            ns.unique_seq_to_set();
            assert(ns.to_set() =~= tv_tvs(self@)) by {
                assert forall|n: Seq<char>| ns.to_set().contains(n) <==> tv_tvs(self@).contains(n) by {
                    if names_has(tv_set@, n) {
                        let j = choose|j: int| 0 <= j < tv_set@.len() && tv_set@[j]@ == n;
                        assert(ns[j] == n);
                    }
                    if ns.contains(n) {
                        let j = choose|j: int| 0 <= j < ns.len() && ns[j] == n;
                        assert(tv_set@[j]@ == n);
                    }
                }
            }
        }
        let exs = self.ordered_existentials();
        let ghost exv = exs@.map_values(|x: usize| x as nat);
        let mut chosen: Vec<String> = Vec::new();
        let mut new_self = self.deep_clone();
        let mut index: usize = 0;
        assert(tv_tvs(self@) =~= Set::new(|n: Seq<char>| names_has(tv_set@, n)));
        while index < exs.len()
            invariant
                index <= exs@.len(),
                exv == exs@.map_values(|x: usize| x as nat),
                exv == ord_exs(self@),
                tv_set@.len() == size + index,
                gen_state(self@, exv, tv_tvs(self@), size, index as nat)
                    == (Set::new(|n: Seq<char>| names_has(tv_set@, n)), names(chosen@), new_self@),
            decreases exs@.len() - index,
        {
            let ghost taken = Set::new(|n: Seq<char>| names_has(tv_set@, n));
            let n = tv_set.len();
            let mut i: usize = 0;
            let mut name = Type::num_identifier_to_str(index);
            while names_contain(&tv_set, &name) && i < n && i < usize::MAX - index
                invariant
                    i <= n,
                    n == tv_set@.len(),
                    taken == Set::new(|x: Seq<char>| names_has(tv_set@, x)),
                    name@ == spec_num_id((index + i) as nat),
                    free_from(taken, index as nat, n as nat) == free_from(taken, (index + i) as nat, (n - i) as nat),
                decreases n - i,
            {
                i = i + 1;
                name = Type::num_identifier_to_str(index + i);
            }
            assert(free_from(taken, index as nat, n as nat) == (index + i) as nat);
            let ghost prev_set = tv_set@;
            let ghost prev_chosen = chosen@;
            tv_set.push(name.clone());
            chosen.push(name.clone());
            let x = exs[index];
            new_self = new_self.exist_to_tv(x, &name);
            assert(exv[index as int] == x as nat);
            assert(Set::new(|m: Seq<char>| names_has(tv_set@, m)) =~= taken.insert(name@)) by {
                assert forall|m: Seq<char>| names_has(tv_set@, m) <==> taken.insert(name@).contains(m) by {
                    if names_has(tv_set@, m) {
                        let j = choose|j: int| 0 <= j < tv_set@.len() && tv_set@[j]@ == m;
                        if j < prev_set.len() {
                            assert(prev_set[j] == tv_set@[j]);
                        }
                    }
                    if taken.contains(m) {
                        let j = choose|j: int| 0 <= j < prev_set.len() && prev_set[j]@ == m;
                        assert(tv_set@[j] == prev_set[j]);
                    }
                    if m == name@ {
                        assert(tv_set@[prev_set.len() as int] == name);
                    }
                }
            }
            assert(names(chosen@) =~= names(prev_chosen).push(name@));
            index = index + 1;
        }
        let r = Type::fa(chosen, new_self);
        assert(r@ == forall_ify_spec(self@, size));
        r
    }
}

} // verus!
