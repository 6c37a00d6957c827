//! The ordered context of the type checker: type variables, type assignments of names,
//! existential type variables (solved or not) and scope markers.
use vstd::prelude::*;

use crate::ast::{ASTNodeType, AST};
use crate::labels::LabelTable;
use crate::text::{dec_str, lit, push_str, str_eq, usize_to_string};
use crate::types::{names_has, Type, TypeError, TypeV};

verus! {

pub enum ContextItem {
    TypeVariable(String),
    TypeAssignment(String, Result<Type, TypeError>),
    Existential(usize, Option<Type>),
    Marker(usize),
}

/// The value of a context item: names as character sequences, types as values, a failed
/// assignment as `None`.
pub enum ItemV {
    TypeVariable(Seq<char>),
    TypeAssignment(Seq<char>, Option<TypeV>),
    Existential(usize, Option<TypeV>),
    Marker(usize),
}

/// The value of an optional type.
pub open spec fn opt_type_view(o: Option<Type>) -> Option<TypeV> {
    match o {
        Some(t) => Some(t@),
        None => None,
    }
}

pub open spec fn item_view(i: ContextItem) -> ItemV {
    match i {
        ContextItem::TypeVariable(n) => ItemV::TypeVariable(n@),
        ContextItem::TypeAssignment(n, r) => ItemV::TypeAssignment(
            n@,
            match r {
                Ok(t) => Some(t@),
                Err(_) => None,
            },
        ),
        ContextItem::Existential(e, o) => ItemV::Existential(
            e,
            match o {
                Some(t) => Some(t@),
                None => None,
            },
        ),
        ContextItem::Marker(m) => ItemV::Marker(m),
    }
}

impl View for ContextItem {
    type V = ItemV;

    open spec fn view(&self) -> ItemV {
        item_view(*self)
    }
}

/// The context, with the largest existential identifier handed out and the number of
/// placeholder names (`_0`, `_1`, ...) used.
pub struct Context {
    pub vec: Vec<ContextItem>,
    pub next_exid: usize,
    pub next_placeholder_assignvar_i: usize,
}

/// The value of a context.
pub struct CtxV {
    pub items: Seq<ItemV>,
    pub next_exid: usize,
    pub next_ph: usize,
}

pub open spec fn items_view(v: Seq<ContextItem>) -> Seq<ItemV> {
    Seq::new(v.len(), |i: int| v[i]@)
}

pub proof fn lemma_items_view_push(v: Seq<ContextItem>, x: ContextItem)
    ensures
        items_view(v.push(x)) == items_view(v).push(x@),
{
    assert(items_view(v.push(x)) =~= items_view(v).push(x@));
}

impl View for Context {
    type V = CtxV;

    open spec fn view(&self) -> CtxV {
        CtxV { items: items_view(self.vec@), next_exid: self.next_exid, next_ph: self.next_placeholder_assignvar_i }
    }
}

/// `n + 1`, staying at the largest `usize`.
pub open spec fn sat_inc(n: usize) -> usize {
    if n < usize::MAX { (n + 1) as usize } else { n }
}

pub open spec fn max_usize(a: usize, b: usize) -> usize {
    if a > b { a } else { b }
}

/// Names that start with `_` are placeholders.
pub open spec fn is_placeholder(n: Seq<char>) -> bool {
    n.len() > 0 && n[0] == '_'
}

/// The context with `it` added at the end.
pub open spec fn ctx_append(c: CtxV, it: ItemV) -> CtxV {
    CtxV {
        items: c.items.push(it),
        next_exid: match it {
            ItemV::Existential(e, _) => max_usize(e, c.next_exid),
            _ => c.next_exid,
        },
        next_ph: match it {
            ItemV::TypeAssignment(n, _) => if is_placeholder(n) { sat_inc(c.next_ph) } else { c.next_ph },
            ItemV::TypeVariable(n) => if is_placeholder(n) { sat_inc(c.next_ph) } else { c.next_ph },
            _ => c.next_ph,
        },
    }
}

/// The position of the first item from `k` on that satisfies `p` (the length if none).
pub open spec fn first_where(s: Seq<ItemV>, p: spec_fn(ItemV) -> bool, k: nat) -> nat
    decreases s.len() - k,
{
    if k >= s.len() {
        s.len()
    } else if p(s[k as int]) {
        k
    } else {
        first_where(s, p, k + 1)
    }
}

pub open spec fn same_item(x: ItemV, it: ItemV) -> bool {
    x == it
}

/// The context up to (not including) the first item equal to `it`.
pub open spec fn ctx_before_item(c: CtxV, it: ItemV) -> CtxV {
    CtxV { items: c.items.take(first_where(c.items, |x: ItemV| same_item(x, it), 0) as int), ..c }
}

pub open spec fn assigns_name(x: ItemV, name: Seq<char>) -> bool {
    x matches ItemV::TypeAssignment(n, _) && n == name
}

/// The context up to (not including) the first assignment of `name`.
pub open spec fn ctx_before_assignment(c: CtxV, name: Seq<char>) -> CtxV {
    CtxV { items: c.items.take(first_where(c.items, |x: ItemV| assigns_name(x, name), 0) as int), ..c }
}

/// The type assigned to `name` by its first assignment (`Some(None)` for a failed one).
pub open spec fn ctx_type_assignment(c: CtxV, name: Seq<char>) -> Option<Option<TypeV>> {
    let k = first_where(c.items, |x: ItemV| assigns_name(x, name), 0);
    if k < c.items.len() {
        match c.items[k as int] {
            ItemV::TypeAssignment(_, t) => Some(t),
            _ => None,
        }
    } else {
        None
    }
}

pub open spec fn is_existential(x: ItemV, ex: usize) -> bool {
    x matches ItemV::Existential(e, _) && e == ex
}

/// What the first item for the existential `ex` says of it (`None` if it has none).
pub open spec fn ctx_existential(items: Seq<ItemV>, ex: usize) -> Option<Option<TypeV>> {
    let k = first_where(items, |x: ItemV| is_existential(x, ex), 0);
    if k < items.len() {
        match items[k as int] {
            ItemV::Existential(_, o) => Some(o),
            _ => None,
        }
    } else {
        None
    }
}

/// The items of `s` with `it` inserted before each item of the existential `ex`.
pub open spec fn abe_items(s: Seq<ItemV>, ex: usize, it: ItemV) -> Seq<ItemV>
    decreases s.len(),
{
    if s.len() == 0 {
        s
    } else {
        let rest = abe_items(s.drop_last(), ex, it);
        if is_existential(s.last(), ex) {
            rest.push(it).push(s.last())
        } else {
            rest.push(s.last())
        }
    }
}

/// The largest of `start` and the existentials of `s`.
pub open spec fn max_exid(s: Seq<ItemV>, start: usize) -> usize
    decreases s.len(),
{
    if s.len() == 0 {
        start
    } else {
        match s.last() {
            ItemV::Existential(e, _) => max_usize(e, max_exid(s.drop_last(), start)),
            _ => max_exid(s.drop_last(), start),
        }
    }
}

/// `start` counted up once for each placeholder assignment of `s`.
pub open spec fn count_ph(s: Seq<ItemV>, start: usize) -> usize
    decreases s.len(),
{
    if s.len() == 0 {
        start
    } else {
        match s.last() {
            ItemV::TypeAssignment(n, _) => if is_placeholder(n) {
                sat_inc(count_ph(s.drop_last(), start))
            } else {
                count_ph(s.drop_last(), start)
            },
            _ => count_ph(s.drop_last(), start),
        }
    }
}

/// The context with `it` inserted before the existential `ex`. The counters are brought up
/// to date with every item (each placeholder assignment counts once more).
pub open spec fn ctx_add_before_existential(c: CtxV, ex: usize, it: ItemV) -> CtxV {
    let start = match it {
        ItemV::Existential(e2, _) => max_usize(e2, c.next_exid),
        _ => c.next_exid,
    };
    CtxV {
        items: abe_items(c.items, ex, it),
        next_exid: max_exid(c.items, start),
        next_ph: count_ph(c.items, c.next_ph),
    }
}

/// One item after solving the existential `ex` as `t`: an existential defined as `ex`
/// itself is defined as `t` too; `ex` is defined as `t` unless it is defined as another
/// existential.
pub open spec fn set_item(x: ItemV, ex: usize, t: TypeV) -> ItemV {
    match x {
        ItemV::Existential(e, Some(TypeV::Existential(e2))) => if e2 == ex as nat {
            ItemV::Existential(e, Some(t))
        } else {
            x
        },
        ItemV::Existential(e, _) => if e == ex {
            ItemV::Existential(e, Some(t))
        } else {
            x
        },
        _ => x,
    }
}

pub open spec fn ctx_set_existential(c: CtxV, ex: usize, t: TypeV) -> CtxV {
    CtxV { items: Seq::new(c.items.len(), |i: int| set_item(c.items[i], ex, t)), ..c }
}

/// The name of the next placeholder: `_` and the count.
pub open spec fn ctx_next_placeholder(c: CtxV) -> Seq<char> {
    seq!['_'] + dec_str(c.next_ph as nat)
}

/// `t` with every solved existential replaced by its solution, following solutions at most
/// `fuel` deep.
pub open spec fn subst(items: Seq<ItemV>, t: TypeV, fuel: nat) -> TypeV
    decreases fuel, t, 0nat,
{
    match t {
        TypeV::Existential(ex) => if ex <= usize::MAX {
            match ctx_existential(items, ex as usize) {
                Some(Some(t2)) => if fuel == 0 {
                    t
                } else {
                    subst(items, t2, (fuel - 1) as nat)
                },
                _ => t,
            }
        } else {
            t
        },
        TypeV::Function(a, b) => TypeV::Function(Box::new(subst(items, *a, fuel)), Box::new(subst(items, *b, fuel))),
        TypeV::Product(a, b) => TypeV::Product(Box::new(subst(items, *a, fuel)), Box::new(subst(items, *b, fuel))),
        TypeV::Forall(v, a) => TypeV::Forall(v, Box::new(subst(items, *a, fuel))),
        TypeV::Union(n, s) => TypeV::Union(n, subst_seq(items, s, fuel, s.len())),
        _ => t,
    }
}

pub open spec fn subst_seq(items: Seq<ItemV>, s: Seq<TypeV>, fuel: nat, k: nat) -> Seq<TypeV>
    decreases fuel, s, k,
{
    if k == 0 || k > s.len() {
        Seq::empty()
    } else {
        subst_seq(items, s, fuel, (k - 1) as nat).push(subst(items, s[k - 1], fuel))
    }
}

/// `t` with the solved existentials of the context replaced by their solutions.
pub open spec fn ctx_subst(c: CtxV, t: TypeV) -> TypeV {
    subst(c.items, t, c.items.len())
}

impl ContextItem {
    /// A copy of the item.
    pub fn copy(&self) -> (r: ContextItem)
        ensures
            r@ == self@,
    {
        match self {
            ContextItem::TypeVariable(n) => ContextItem::TypeVariable(n.clone()),
            ContextItem::TypeAssignment(n, r) => ContextItem::TypeAssignment(
                n.clone(),
                match r {
                    Ok(t) => Ok(t.deep_clone()),
                    Err(e) => Err(e.clone()),
                },
            ),
            ContextItem::Existential(e, o) => ContextItem::Existential(
                *e,
                match o {
                    Some(t) => Some(t.deep_clone()),
                    None => None,
                },
            ),
            ContextItem::Marker(m) => ContextItem::Marker(*m),
        }
    }

    /// Whether two items have the same value.
    pub fn same(&self, other: &ContextItem) -> (r: bool)
        ensures
            r == (self@ == other@),
    {
        match (self, other) {
            (ContextItem::TypeVariable(a), ContextItem::TypeVariable(b)) => str_eq(a, b),
            (ContextItem::TypeAssignment(a, ra), ContextItem::TypeAssignment(b, rb)) => {
                str_eq(a, b) && match (ra, rb) {
                    (Ok(x), Ok(y)) => x.type_eq(y),
                    (Err(_), Err(_)) => true,
                    _ => false,
                }
            },
            (ContextItem::Existential(a, oa), ContextItem::Existential(b, ob)) => {
                *a == *b && match (oa, ob) {
                    (Some(x), Some(y)) => x.type_eq(y),
                    (None, None) => true,
                    _ => false,
                }
            },
            (ContextItem::Marker(a), ContextItem::Marker(b)) => *a == *b,
            _ => false,
        }
    }
}

/// Whether a name starts with `_`.
fn starts_with_underscore(n: &String) -> (r: bool)
    ensures
        r == is_placeholder(n@),
{
    crate::text::starts_with_char(n, '_')
}

/// The assignment items of `items`, in order.
pub open spec fn keep_assigns(items: Seq<ItemV>) -> Seq<ItemV>
    decreases items.len(),
{
    if items.len() == 0 {
        Seq::empty()
    } else {
        let rest = keep_assigns(items.drop_last());
        if items.last() is TypeAssignment {
            rest.push(items.last())
        } else {
            rest
        }
    }
}

/// `items` without the assignments to `name`, in order.
pub open spec fn drop_assign(items: Seq<ItemV>, name: Seq<char>) -> Seq<ItemV>
    decreases items.len(),
{
    if items.len() == 0 {
        Seq::empty()
    } else {
        let rest = drop_assign(items.drop_last(), name);
        if items.last() matches ItemV::TypeAssignment(n, _) && n == name {
            rest
        } else {
            rest.push(items.last())
        }
    }
}

impl Context {
    /// A copy of the context.
    pub fn copy(&self) -> (r: Context)
        ensures
            r@ == self@,
    {
        let mut v: Vec<ContextItem> = Vec::new();
        let mut k: usize = 0;
        while k < self.vec.len()
            invariant
                k <= self.vec@.len(),
                items_view(v@) == items_view(self.vec@).take(k as int),
            decreases self.vec@.len() - k,
        {
            let it = self.vec[k].copy();
            proof { lemma_items_view_push(v@, it); }
            v.push(it);
            k = k + 1;
            assert(items_view(v@) =~= items_view(self.vec@).take(k as int));
        }
        assert(items_view(self.vec@).take(k as int) =~= items_view(self.vec@));
        Context { vec: v, next_exid: self.next_exid, next_placeholder_assignvar_i: self.next_placeholder_assignvar_i }
    }

    /// The context with its assignments only, counters kept.
    pub fn assigns_only(&self) -> (r: Context)
        ensures
            r@ == (CtxV { items: keep_assigns(self@.items), ..self@ }),
    {
        let ghost all = items_view(self.vec@);
        let mut v: Vec<ContextItem> = Vec::new();
        let mut k: usize = 0;
        while k < self.vec.len()
            invariant
                k <= self.vec@.len(),
                all == items_view(self.vec@),
                items_view(v@) == keep_assigns(all.take(k as int)),
            decreases self.vec@.len() - k,
        {
            assert(all.take(k + 1).drop_last() =~= all.take(k as int));
            assert(all.take(k + 1).last() == self.vec@[k as int]@);
            match &self.vec[k] {
                ContextItem::TypeAssignment(_, _) => {
                    let it = self.vec[k].copy();
                    proof { lemma_items_view_push(v@, it); }
                    v.push(it);
                },
                _ => {},
            }
            k = k + 1;
        }
        assert(all.take(k as int) =~= all);
        Context { vec: v, next_exid: self.next_exid, next_placeholder_assignvar_i: self.next_placeholder_assignvar_i }
    }

    /// The context without the assignments to `name`, counters kept.
    pub fn remove_assignment(&self, name: &String) -> (r: Context)
        ensures
            r@ == (CtxV { items: drop_assign(self@.items, name@), ..self@ }),
    {
        let ghost all = items_view(self.vec@);
        let mut v: Vec<ContextItem> = Vec::new();
        let mut k: usize = 0;
        while k < self.vec.len()
            invariant
                k <= self.vec@.len(),
                all == items_view(self.vec@),
                items_view(v@) == drop_assign(all.take(k as int), name@),
            decreases self.vec@.len() - k,
        {
            assert(all.take(k + 1).drop_last() =~= all.take(k as int));
            assert(all.take(k + 1).last() == self.vec@[k as int]@);
            let skip = match &self.vec[k] {
                ContextItem::TypeAssignment(n, _) => str_eq(n, name),
                _ => false,
            };
            if !skip {
                let it = self.vec[k].copy();
                proof { lemma_items_view_push(v@, it); }
                v.push(it);
            }
            k = k + 1;
        }
        assert(all.take(k as int) =~= all);
        Context { vec: v, next_exid: self.next_exid, next_placeholder_assignvar_i: self.next_placeholder_assignvar_i }
    }

    /// The context of the typed labels of `labels`, but for the names in `yet_to_bind`:
    /// each other name that has a label, once, with the type of its label with the most
    /// arguments (in no particular order).
    pub fn from_labels(labels: &LabelTable, yet_to_bind: &Vec<String>) -> (r: Context)
        requires
            labels.wf(),
        ensures
            r.next_exid == 0,
            r.next_placeholder_assignvar_i == 0,
            forall|k: int| 0 <= k < r@.items.len() ==> (#[trigger] r@.items[k] matches ItemV::TypeAssignment(n, Some(t))
                && labels.has_label_type(n, t) && !names_has(yet_to_bind@, n)
                && labels.last_from(n, labels.map@.len()) is Some
                && labels.last_from(n, labels.map@.len())->0.label_type@ == t),
            forall|n: Seq<char>| #[trigger] labels.last_from(n, labels.map@.len()) is Some && !names_has(yet_to_bind@, n)
                ==> exists|k: int| 0 <= k < r@.items.len() && r@.items[k] == ItemV::TypeAssignment(n, Some(labels.last_from(n, labels.map@.len())->0.label_type@)),
            forall|k1: int, k2: int| 0 <= k1 < k2 < r@.items.len() ==> (#[trigger] r@.items[k1])->TypeAssignment_0 != (#[trigger] r@.items[k2])->TypeAssignment_0,
    {
        let tm = labels.get_type_map();
        let mut v: Vec<ContextItem> = Vec::new();
        let mut k: usize = 0;
        let ghost mut idx: Seq<int> = Seq::empty();
        while k < tm.len()
            invariant
                k <= tm@.len(),
                forall|j: int| 0 <= j < tm@.len() ==> labels.has_label_type(#[trigger] tm@[j].0@, tm@[j].1@),
                forall|j: int| 0 <= j < tm@.len() ==> {
                    let l = labels.last_from(#[trigger] tm@[j].0@, labels.map@.len());
                    l is Some && l->0.label_type@ == tm@[j].1@
                },
                forall|k1: int, k2: int| 0 <= k1 < k2 < tm@.len() ==> tm@[k1].0@ != tm@[k2].0@,
                idx.len() == v@.len(),
                forall|i: int| 0 <= i < idx.len() ==> 0 <= #[trigger] idx[i] < k,
                forall|i1: int, i2: int| 0 <= i1 < i2 < idx.len() ==> idx[i1] < idx[i2],
                forall|i: int| 0 <= i < v@.len() ==> #[trigger] v@[i]@ == ItemV::TypeAssignment(tm@[idx[i]].0@, Some(tm@[idx[i]].1@)),
                forall|j: int| 0 <= j < k && !names_has(yet_to_bind@, #[trigger] tm@[j].0@) ==> exists|i: int| 0 <= i < idx.len() && idx[i] == j,
                forall|i: int| 0 <= i < idx.len() ==> !names_has(yet_to_bind@, #[trigger] tm@[idx[i]].0@),
            decreases tm@.len() - k,
        {
            if !crate::types::names_contain(yet_to_bind, &tm[k].0) {
                let item = ContextItem::TypeAssignment(tm[k].0.clone(), Ok(tm[k].1.deep_clone()));
                v.push(item);
                proof {
                    let i0 = idx.len() as int;
                    let old_idx = idx;
                    idx = idx.push(k as int);
                    assert(idx[i0] == k);
                    assert forall|j: int| 0 <= j < k + 1 && !names_has(yet_to_bind@, #[trigger] tm@[j].0@) implies exists|i: int| 0 <= i < idx.len() && idx[i] == j by {
                        if j < k {
                            let i = choose|i: int| 0 <= i < old_idx.len() && old_idx[i] == j;
                            assert(idx[i] == j);
                        } else {
                            assert(idx[i0] == j);
                        }
                    }
                }
            }
            k = k + 1;
        }
        let r = Context { vec: v, next_exid: 0, next_placeholder_assignvar_i: 0 };
        proof {
            assert forall|k: int| 0 <= k < r@.items.len() implies (#[trigger] r@.items[k] matches ItemV::TypeAssignment(n, Some(t))
                && labels.has_label_type(n, t) && !names_has(yet_to_bind@, n)
                && labels.last_from(n, labels.map@.len()) is Some
                && labels.last_from(n, labels.map@.len())->0.label_type@ == t) by {
                assert(r@.items[k] == v@[k]@);
                let j = idx[k];
                assert(labels.has_label_type(tm@[j].0@, tm@[j].1@));
            }
            assert forall|n: Seq<char>| #[trigger] labels.last_from(n, labels.map@.len()) is Some && !names_has(yet_to_bind@, n)
                implies exists|k: int| 0 <= k < r@.items.len() && r@.items[k] == ItemV::TypeAssignment(n, Some(labels.last_from(n, labels.map@.len())->0.label_type@)) by {
                let j = choose|j: int| 0 <= j < tm@.len() && #[trigger] tm@[j].0@ == n;
                assert(!names_has(yet_to_bind@, tm@[j].0@));
                let i = choose|i: int| 0 <= i < idx.len() && idx[i] == j;
                assert(r@.items[i] == v@[i]@);
            }
            assert forall|k1: int, k2: int| 0 <= k1 < k2 < r@.items.len() implies (#[trigger] r@.items[k1])->TypeAssignment_0 != (#[trigger] r@.items[k2])->TypeAssignment_0 by {
                assert(r@.items[k1] == v@[k1]@);
                assert(r@.items[k2] == v@[k2]@);
                assert(idx[k1] < idx[k2]);
            }
        }
        r
    }

    /// The context with `item` added at the end.
    pub fn append(&self, item: ContextItem) -> (r: Context)
        ensures
            r@ == ctx_append(self@, item@),
    {
        let mut new = self.copy();
        match &item {
            ContextItem::TypeAssignment(name, _) => {
                if starts_with_underscore(name) {
                    new.next_placeholder_assignvar_i = new.next_placeholder_assignvar_i.saturating_add(1);
                }
            },
            ContextItem::TypeVariable(name) => {
                if starts_with_underscore(name) {
                    new.next_placeholder_assignvar_i = new.next_placeholder_assignvar_i.saturating_add(1);
                }
            },
            ContextItem::Existential(e, _) => {
                if *e > new.next_exid {
                    new.next_exid = *e;
                }
            },
            _ => {},
        }
        let ghost iv = item@;
        new.vec.push(item);
        assert(items_view(new.vec@) =~= self@.items.push(iv));
        new
    }

    /// The context up to the first item equal to `item`.
    pub fn get_before_item(&self, item: ContextItem) -> (r: Context)
        ensures
            r@ == ctx_before_item(self@, item@),
    {
        let ghost s = self@.items;
        let ghost p = |x: ItemV| same_item(x, item@);
        let mut v: Vec<ContextItem> = Vec::new();
        let mut k: usize = 0;
        while k < self.vec.len()
            invariant
                k <= self.vec@.len(),
                s == self@.items,
                p == (|x: ItemV| same_item(x, item@)),
                first_where(s, p, 0) == first_where(s, p, k as nat),
                items_view(v@) == s.take(k as int),
            ensures
                first_where(s, p, 0) == k,
                items_view(v@) == s.take(k as int),
            decreases self.vec@.len() - k,
        {
            if self.vec[k].same(&item) {
                break;
            }
            let it = self.vec[k].copy();
            proof { lemma_items_view_push(v@, it); }
            v.push(it);
            k = k + 1;
            assert(items_view(v@) =~= s.take(k as int));
        }
        Context { vec: v, next_exid: self.next_exid, next_placeholder_assignvar_i: self.next_placeholder_assignvar_i }
    }

    /// The context up to the first assignment of `name`.
    pub fn get_before_assignment(&self, name: String) -> (r: Context)
        ensures
            r@ == ctx_before_assignment(self@, name@),
    {
        let ghost s = self@.items;
        let ghost p = |x: ItemV| assigns_name(x, name@);
        let mut v: Vec<ContextItem> = Vec::new();
        let mut k: usize = 0;
        while k < self.vec.len()
            invariant
                k <= self.vec@.len(),
                s == self@.items,
                p == (|x: ItemV| assigns_name(x, name@)),
                first_where(s, p, 0) == first_where(s, p, k as nat),
                items_view(v@) == s.take(k as int),
            ensures
                first_where(s, p, 0) == k,
                items_view(v@) == s.take(k as int),
            decreases self.vec@.len() - k,
        {
            let found = match &self.vec[k] {
                ContextItem::TypeAssignment(n, _) => str_eq(n, &name),
                _ => false,
            };
            if found {
                break;
            }
            let it = self.vec[k].copy();
            proof { lemma_items_view_push(v@, it); }
            v.push(it);
            k = k + 1;
            assert(items_view(v@) =~= s.take(k as int));
        }
        Context { vec: v, next_exid: self.next_exid, next_placeholder_assignvar_i: self.next_placeholder_assignvar_i }
    }

    /// The type that the first assignment of `var` gives it.
    pub fn get_type_assignment(&self, var: &String) -> (r: Option<Result<Type, TypeError>>)
        ensures
            r is Some <==> ctx_type_assignment(self@, var@) is Some,
            r matches Some(Ok(t)) ==> ctx_type_assignment(self@, var@) == Some(Some(t@)),
            r matches Some(Err(_)) ==> ctx_type_assignment(self@, var@) == Some(None::<TypeV>),
    {
        let ghost s = self@.items;
        let ghost p = |x: ItemV| assigns_name(x, var@);
        let mut k: usize = 0;
        while k < self.vec.len()
            invariant
                k <= self.vec@.len(),
                s == self@.items,
                p == (|x: ItemV| assigns_name(x, var@)),
                first_where(s, p, 0) == first_where(s, p, k as nat),
            decreases self.vec@.len() - k,
        {
            match &self.vec[k] {
                ContextItem::TypeAssignment(n, t) => {
                    if str_eq(n, var) {
                        return Some(
                            match t {
                                Ok(t) => Ok(t.deep_clone()),
                                Err(e) => Err(e.clone()),
                            },
                        );
                    }
                },
                _ => {},
            }
            k = k + 1;
        }
        None
    }

    /// The context with `item` inserted before the existential `existential`.
    pub fn add_before_existential(&self, existential: usize, item: ContextItem) -> (r: Context)
        ensures
            r@ == ctx_add_before_existential(self@, existential, item@),
    {
        let ghost s = self@.items;
        let ghost iv = item@;
        let mut next_ph = self.next_placeholder_assignvar_i;
        let mut next_exid = self.next_exid;
        match &item {
            ContextItem::Existential(e2, _) => {
                if *e2 > next_exid {
                    next_exid = *e2;
                }
            },
            _ => {},
        }
        let ghost start = next_exid;
        let mut v: Vec<ContextItem> = Vec::new();
        let mut k: usize = 0;
        while k < self.vec.len()
            invariant
                k <= self.vec@.len(),
                s == self@.items,
                iv == item@,
                items_view(v@) == abe_items(s.take(k as int), existential, iv),
                next_exid == max_exid(s.take(k as int), start),
                next_ph == count_ph(s.take(k as int), self.next_placeholder_assignvar_i),
            decreases self.vec@.len() - k,
        {
            let ghost prefix = s.take(k as int);
            assert(s.take(k + 1).drop_last() =~= prefix);
            assert(s.take(k + 1).last() == self.vec@[k as int]@);
            match &self.vec[k] {
                ContextItem::TypeAssignment(name, _) => {
                    if starts_with_underscore(name) {
                        next_ph = next_ph.saturating_add(1);
                    }
                },
                ContextItem::Existential(e, _) => {
                    if *e == existential {
                        let c = item.copy();
                        proof { lemma_items_view_push(v@, c); }
                        v.push(c);
                    }
                    if *e > next_exid {
                        next_exid = *e;
                    }
                },
                _ => {},
            }
            let it = self.vec[k].copy();
            proof { lemma_items_view_push(v@, it); }
            v.push(it);
            k = k + 1;
            assert(items_view(v@) =~= abe_items(s.take(k as int), existential, iv));
        }
        assert(s.take(k as int) =~= s);
        Context { vec: v, next_exid, next_placeholder_assignvar_i: next_ph }
    }

    /// The context with the existential `existential_being_set` solved as `t` (see
    /// `set_item`).
    pub fn set_existential_definition(&self, existential_being_set: usize, t: Type) -> (r: Context)
        ensures
            r@ == ctx_set_existential(self@, existential_being_set, t@),
    {
        let ghost s = self@.items;
        let ex = existential_being_set;
        let mut v: Vec<ContextItem> = Vec::new();
        let mut k: usize = 0;
        while k < self.vec.len()
            invariant
                k <= self.vec@.len(),
                s == self@.items,
                items_view(v@) == Seq::new(k as nat, |i: int| set_item(s[i], ex, t@)),
            decreases self.vec@.len() - k,
        {
            let new_item = match &self.vec[k] {
                ContextItem::Existential(e, Some(Type::Existential(e2))) => {
                    if *e2 == ex {
                        ContextItem::Existential(*e, Some(t.deep_clone()))
                    } else {
                        self.vec[k].copy()
                    }
                },
                ContextItem::Existential(e, _) => {
                    if *e == ex {
                        ContextItem::Existential(*e, Some(t.deep_clone()))
                    } else {
                        self.vec[k].copy()
                    }
                },
                _ => self.vec[k].copy(),
            };
            assert(new_item@ == set_item(s[k as int], ex, t@));
            proof { lemma_items_view_push(v@, new_item); }
            v.push(new_item);
            k = k + 1;
            assert(items_view(v@) =~= Seq::new(k as nat, |i: int| set_item(s[i], ex, t@)));
        }
        Context { vec: v, next_exid: self.next_exid, next_placeholder_assignvar_i: self.next_placeholder_assignvar_i }
    }

    /// The identifier of the next existential: one more than the largest handed out.
    pub fn get_next_existential_identifier(&self) -> (r: usize)
        requires
            self.next_exid < usize::MAX,
        ensures
            r == self.next_exid + 1,
    {
        self.next_exid + 1
    }

    /// The next placeholder name: `_` and the count of those used.
    pub fn get_next_placeholder_assignvar(&self) -> (r: String)
        ensures
            r@ == ctx_next_placeholder(self@),
    {
        let mut s = lit("_");
        let n = usize_to_string(self.next_placeholder_assignvar_i);
        push_str(&mut s, n.as_str());
        proof { reveal_strlit("_"); }
        s
    }

    /// What the context says of the existential `ex`: `None` where it is not in the
    /// context, `Some(None)` where it is unsolved, `Some(Some(t))` where it is solved as `t`.
    pub fn get_existential(&self, ex: usize) -> (r: Option<Option<Type>>)
        ensures
            r matches Some(o) ==> ctx_existential(self@.items, ex) == Some(opt_type_view(o)),
            r is None <==> ctx_existential(self@.items, ex) is None,
    {
        let ghost s = self@.items;
        let ghost p = |x: ItemV| is_existential(x, ex);
        let mut k: usize = 0;
        while k < self.vec.len()
            invariant
                k <= self.vec@.len(),
                s == self@.items,
                p == (|x: ItemV| is_existential(x, ex)),
                first_where(s, p, 0) == first_where(s, p, k as nat),
            decreases self.vec@.len() - k,
        {
            match &self.vec[k] {
                ContextItem::Existential(e2, o) => {
                    if *e2 == ex {
                        return Some(
                            match o {
                                Some(t) => Some(t.deep_clone()),
                                None => None,
                            },
                        );
                    }
                },
                _ => {},
            }
            k = k + 1;
        }
        None
    }

    /// `t` with each solved existential replaced by its solution (see `ctx_subst`).
    pub fn substitute(&self, t: &Type) -> (r: Type)
        ensures
            r@ == ctx_subst(self@, t@),
    {
        self.substitute_fuel(t, self.vec.len())
    }

    #[verifier::loop_isolation(false)]
    fn substitute_fuel(&self, t: &Type, fuel: usize) -> (r: Type)
        ensures
            r@ == subst(self@.items, t@, fuel as nat),
        decreases fuel, t,
    {
        match t {
            Type::Existential(ex) => {
                match self.get_existential(*ex) {
                    Some(Some(t2)) => {
                        if fuel == 0 {
                            Type::Existential(*ex)
                        } else {
                            self.substitute_fuel(&t2, fuel - 1)
                        }
                    },
                    _ => Type::Existential(*ex),
                }
            },
            Type::Function(a, b) => Type::Function(
                Box::new(self.substitute_fuel(&**a, fuel)),
                Box::new(self.substitute_fuel(&**b, fuel)),
            ),
            Type::Product(a, b) => Type::Product(
                Box::new(self.substitute_fuel(&**a, fuel)),
                Box::new(self.substitute_fuel(&**b, fuel)),
            ),
            Type::Forall(v, a) => Type::Forall(v.clone(), Box::new(self.substitute_fuel(&**a, fuel))),
            Type::Union(n, ts) => {
                proof { crate::types::lemma_union_view(*t); }
                let ghost sv = crate::types::views(ts@);
                let mut out: Vec<Type> = Vec::new();
                let mut k: usize = 0;
                while k < ts.len()
                    invariant
                        k <= ts@.len(),
                        sv == crate::types::views(ts@),
                        crate::types::views(out@) == subst_seq(self@.items, sv, fuel as nat, k as nat),
                    decreases ts@.len() - k,
                {
                    proof { vstd::std_specs::vec::axiom_vec_index_decreases(*ts, k as int); }
                    let x = self.substitute_fuel(&ts[k], fuel);
                    let ghost prev = out@;
                    out.push(x);
                    k = k + 1;
                    assert(crate::types::views(out@) =~= crate::types::views(prev).push(x@));
                }
                let r = Type::Union(n.clone(), out);
                proof { crate::types::lemma_union_view(r); }
                r
            },
            _ => t.deep_clone(),
        }
    }
}

/// The existential `n` as a type.
pub open spec fn ex_t(n: usize) -> TypeV {
    TypeV::Existential(n as nat)
}

/// Binds the variables of the pattern `e` (an identifier or nested pairs of them) to the
/// type `expected` in the context; gives the context and the first name bound. A name
/// that already has a type is refused; `_` names get fresh placeholder names; a pair is
/// matched against the type an alias stands for.
pub open spec fn radd(c: CtxV, expected: TypeV, ast: &AST, e: int) -> Option<(CtxV, Seq<char>)>
    decreases ast.measure(e), expected,
{
    if !(ast.wf() && ast.valid(e)) {
        None
    } else {
        proof { ast.lemma_node(e); }
        let t = ast.vec@[e].t;
        if t == ASTNodeType::Identifier {
            let name = ast.value_of(e);
            if ctx_type_assignment(c, name) is Some {
                None
            } else {
                let vn = if is_placeholder(name) { ctx_next_placeholder(c) } else { name };
                Some((ctx_append(c, ItemV::TypeAssignment(vn, Some(expected))), vn))
            }
        } else if t == ASTNodeType::Pair {
            match expected {
                TypeV::Alias(_, x) => radd(c, *x, ast, e),
                TypeV::Product(p1, p2) => match radd(c, *p1, ast, ast.child(e, 0) as int) {
                    None => None,
                    Some((c1, before)) => match radd(c1, *p2, ast, ast.child(e, 1) as int) {
                        None => None,
                        Some((c2, _)) => Some((c2, before)),
                    },
                },
                TypeV::Existential(x) => if x > usize::MAX || c.next_exid >= usize::MAX - 2 {
                    None
                } else {
                    let ex = x as usize;
                    let pt1 = (c.next_exid + 1) as usize;
                    let pt2 = (c.next_exid + 2) as usize;
                    let c1 = ctx_add_before_existential(c, ex, ItemV::Existential(pt2, None));
                    let c2 = ctx_add_before_existential(c1, ex, ItemV::Existential(pt1, None));
                    match radd(c2, ex_t(pt1), ast, ast.child(e, 0) as int) {
                        None => None,
                        Some((c3, before)) => match radd(c3, ex_t(pt2), ast, ast.child(e, 1) as int) {
                            None => None,
                            Some((c4, _)) => Some((
                                ctx_set_existential(c4, ex, TypeV::Product(Box::new(ex_t(pt1)), Box::new(ex_t(pt2)))),
                                before,
                            )),
                        },
                    }
                },
                _ => None,
            }
        } else {
            None
        }
    }
}

/// The value of a type error: its message, line and column.
pub type ErrV = (Seq<char>, usize, usize);

pub open spec fn err_view(e: TypeError) -> ErrV {
    (e.e@, e.line, e.col)
}

/// An error with message `msg` at the position of node `e`.
pub open spec fn err_at(msg: Seq<char>, ast: &AST, e: int) -> ErrV {
    (msg, ast.vec@[e].line, ast.vec@[e].col)
}

/// Why the pattern `e` cannot be bound to `expected` (see `radd`).
pub open spec fn radd_err(c: CtxV, expected: TypeV, ast: &AST, e: int) -> ErrV
    decreases ast.measure(e), expected,
{
    if !(ast.wf() && ast.valid(e)) {
        (Seq::empty(), 0, 0)
    } else {
        proof { ast.lemma_node(e); }
        let t = ast.vec@[e].t;
        if t == ASTNodeType::Identifier {
            let name = ast.value_of(e);
            err_at("Type of "@ + name + " is defined elsewhere, so cannot rebind"@, ast, e)
        } else if t == ASTNodeType::Pair {
            match expected {
                TypeV::Alias(_, x) => radd_err(c, *x, ast, e),
                TypeV::Product(p1, p2) => match radd(c, *p1, ast, ast.child(e, 0) as int) {
                    None => radd_err(c, *p1, ast, ast.child(e, 0) as int),
                    Some((c1, _)) => radd_err(c1, *p2, ast, ast.child(e, 1) as int),
                },
                TypeV::Existential(x) => if x > usize::MAX || c.next_exid >= usize::MAX - 2 {
                    err_at("Too many existential type variables"@, ast, e)
                } else {
                    let ex = x as usize;
                    let pt1 = (c.next_exid + 1) as usize;
                    let pt2 = (c.next_exid + 2) as usize;
                    let c1 = ctx_add_before_existential(c, ex, ItemV::Existential(pt2, None));
                    let c2 = ctx_add_before_existential(c1, ex, ItemV::Existential(pt1, None));
                    match radd(c2, ex_t(pt1), ast, ast.child(e, 0) as int) {
                        None => radd_err(c2, ex_t(pt1), ast, ast.child(e, 0) as int),
                        Some((c3, _)) => radd_err(c3, ex_t(pt2), ast, ast.child(e, 1) as int),
                    }
                },
                _ => err_at("recurse add issue"@, ast, e),
            }
        } else {
            err_at("recurse add issue"@, ast, e)
        }
    }
}

/// A type error at the position of node `expr`.
pub fn type_error(msg: String, ast: &AST, expr: usize) -> (r: TypeError)
    requires
        expr < ast.vec@.len(),
    ensures
        r.e@ == msg@,
        r.line == ast.vec@[expr as int].line,
        r.col == ast.vec@[expr as int].col,
{
    let n = &ast.vec[expr];
    TypeError { e: msg, line: n.line, col: n.col }
}

impl Context {
    /// Binds the variables of the pattern `expr` to `expected` (see `radd`).
    pub fn recurse_add_to_context(&self, expected: &Type, ast: &AST, expr: usize) -> (r: Result<(Context, String), TypeError>)
        requires
            ast.wf(),
            expr < ast.vec@.len(),
        ensures
            r is Ok <==> radd(self@, expected@, ast, expr as int) is Some,
            r matches Ok((c, name)) ==> radd(self@, expected@, ast, expr as int) == Some((c@, name@)),
            r matches Err(x) ==> err_view(x) == radd_err(self@, expected@, ast, expr as int),
        decreases ast.measure(expr as int), expected,
    {
        proof { ast.lemma_node(expr as int); }
        let pn = &ast.vec[expr];
        if pn.t == ASTNodeType::Identifier {
            let mut var_name = pn.get_value();
            if self.get_type_assignment(&var_name).is_some() {
                let mut msg = lit("Type of ");
                push_str(&mut msg, var_name.as_str());
                push_str(&mut msg, " is defined elsewhere, so cannot rebind");
                return Err(type_error(msg, ast, expr));
            }
            if starts_with_underscore(&var_name) {
                var_name = self.get_next_placeholder_assignvar();
            }
            let item = ContextItem::TypeAssignment(var_name.clone(), Ok(expected.deep_clone()));
            Ok((self.append(item), var_name))
        } else if pn.t == ASTNodeType::Pair {
            let pv1 = ast.get_first(expr);
            let pv2 = ast.get_second(expr);
            match expected {
                Type::Alias(_, x) => self.recurse_add_to_context(&**x, ast, expr),
                Type::Product(pt1, pt2) => {
                    let (c, before) = self.recurse_add_to_context(&**pt1, ast, pv1)?;
                    let (c2, _) = c.recurse_add_to_context(&**pt2, ast, pv2)?;
                    Ok((c2, before))
                },
                Type::Existential(e) => {
                    if self.next_exid >= usize::MAX - 2 {
                        return Err(type_error(lit("Too many existential type variables"), ast, expr));
                    }
                    let pt1 = self.get_next_existential_identifier();
                    let pt2 = pt1 + 1;
                    let c = self.add_before_existential(*e, ContextItem::Existential(pt2, None));
                    let c = c.add_before_existential(*e, ContextItem::Existential(pt1, None));
                    let (c, before) = c.recurse_add_to_context(&Type::Existential(pt1), ast, pv1)?;
                    let (c, _) = c.recurse_add_to_context(&Type::Existential(pt2), ast, pv2)?;
                    let c = c.set_existential_definition(
                        *e,
                        Type::pr(Type::Existential(pt1), Type::Existential(pt2)),
                    );
                    Ok((c, before))
                },
                _ => Err(type_error(lit("recurse add issue"), ast, expr)),
            }
        } else {
            Err(type_error(lit("recurse add issue"), ast, expr))
        }
    }
}

} // verus!
