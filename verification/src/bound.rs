//! The set of names that are bound while a program is parsed.
use vstd::prelude::*;

use crate::labels::{is_inbuilt_name, LabelTable};
use crate::text::{lit, str_eq};
use crate::types::{names_contain, names_has};

verus! {

/// A set of names.
pub struct BoundChecker {
    bound: Vec<String>,
}

impl View for BoundChecker {
    type V = Set<Seq<char>>;

    closed spec fn view(&self) -> Set<Seq<char>> {
        Set::new(|s: Seq<char>| names_has(self.bound@, s))
    }
}

impl BoundChecker {
    /// The names of the inbuilt functions.
    pub fn new() -> (r: Self)
        ensures
            r@ == Set::new(|s: Seq<char>| is_inbuilt_name(s)),
    {
        let r = BoundChecker { bound: LabelTable::get_starting_bindings_map() };
        proof {
            assert forall|s: Seq<char>| r@.contains(s) <==> is_inbuilt_name(s) by {
                if names_has(r.bound@, s) {
                    let k = choose|k: int| 0 <= k < r.bound@.len() && r.bound@[k]@ == s;
                    assert(is_inbuilt_name(r.bound@[k]@));
                }
            }
            assert(r@ =~= Set::new(|s: Seq<char>| is_inbuilt_name(s)));
        }
        r
    }

    /// No names.
    pub fn empty() -> (r: Self)
        ensures
            r@ == Set::<Seq<char>>::empty(),
    {
        let r = BoundChecker { bound: Vec::new() };
        assert(r@ =~= Set::<Seq<char>>::empty());
        r
    }

    pub fn add_binding(&mut self, name: String)
        ensures
            final(self)@ == old(self)@.insert(name@),
    {
        if !names_contain(&self.bound, &name) {
            let ghost prev = self.bound@;
            let ghost nm = name@;
            self.bound.push(name);
            proof {
                assert forall|s: Seq<char>| names_has(self.bound@, s) <==> (names_has(prev, s) || s == nm) by {
                    if s == nm {
                        assert(self.bound@[prev.len() as int]@ == s);
                    }
                    if names_has(prev, s) {
                        let x = choose|x: int| 0 <= x < prev.len() && prev[x]@ == s;
                        assert(self.bound@[x]@ == s);
                    }
                    if names_has(self.bound@, s) {
                        let x = choose|x: int| 0 <= x < self.bound@.len() && self.bound@[x]@ == s;
                        if x < prev.len() {
                            assert(prev[x]@ == s);
                        }
                    }
                }
            }
        }
        assert(self@ =~= old(self)@.insert(name@));
    }

    pub fn remove_binding(&mut self, name: String)
        ensures
            final(self)@ == old(self)@.remove(name@),
    {
        let mut out: Vec<String> = Vec::new();
        let mut k: usize = 0;
        while k < self.bound.len()
            invariant
                k <= self.bound@.len(),
                forall|s: Seq<char>| names_has(out@, s) <==> (names_has(self.bound@.subrange(0, k as int), s) && s != name@),
            decreases self.bound@.len() - k,
        {
            let ghost prev = out@;
            if !str_eq(&self.bound[k], &name) {
                out.push(self.bound[k].clone());
            }
            proof {
                let kk = k as int;
                let sub = self.bound@.subrange(0, kk + 1);
                assert forall|s: Seq<char>| names_has(out@, s) <==> (names_has(sub, s) && s != name@) by {
                    if names_has(sub, s) {
                        let x = choose|x: int| 0 <= x < sub.len() && sub[x]@ == s;
                        if x < kk {
                            assert(self.bound@.subrange(0, kk)[x]@ == s);
                        } else if s != name@ {
                            assert(out@[out@.len() - 1]@ == s);
                        }
                    }
                    if names_has(self.bound@.subrange(0, kk), s) {
                        let x = choose|x: int| 0 <= x < kk && self.bound@.subrange(0, kk)[x]@ == s;
                        assert(sub[x]@ == s);
                    }
                    if names_has(out@, s) {
                        let x = choose|x: int| 0 <= x < out@.len() && out@[x]@ == s;
                        if x < prev.len() {
                            assert(prev[x]@ == s);
                        } else {
                            assert(sub[kk]@ == s);
                        }
                    }
                    if names_has(prev, s) {
                        let x = choose|x: int| 0 <= x < prev.len() && prev[x]@ == s;
                        assert(out@[x]@ == s);
                    }
                }
            }
            k = k + 1;
        }
        assert(self.bound@.subrange(0, self.bound@.len() as int) =~= self.bound@);
        self.bound = out;
        assert(self@ =~= old(self)@.remove(name@));
    }

    pub fn is_bound(&self, name: &str) -> (r: bool)
        ensures
            r == self@.contains(name@),
    {
        names_contain(&self.bound, &lit(name))
    }

    /// Binds every name `other` binds.
    pub fn append(&mut self, other: &BoundChecker)
        ensures
            final(self)@ == old(self)@.union(other@),
    {
        let mut k: usize = 0;
        while k < other.bound.len()
            invariant
                k <= other.bound@.len(),
                self@ == old(self)@.union(Set::new(|s: Seq<char>| names_has(other.bound@.subrange(0, k as int), s))),
            decreases other.bound@.len() - k,
        {
            let ghost prev = self@;
            self.add_binding(other.bound[k].clone());
            proof {
                let kk = k as int;
                let sub = other.bound@.subrange(0, kk + 1);
                let sub0 = other.bound@.subrange(0, kk);
                assert forall|s: Seq<char>| names_has(sub, s) <==> (names_has(sub0, s) || s == other.bound@[kk]@) by {
                    if s == other.bound@[kk]@ {
                        assert(sub[kk]@ == s);
                    }
                    if names_has(sub, s) {
                        let x = choose|x: int| 0 <= x < sub.len() && sub[x]@ == s;
                        if x < kk {
                            assert(sub0[x]@ == s);
                        }
                    }
                    if names_has(sub0, s) {
                        let x = choose|x: int| 0 <= x < kk && sub0[x]@ == s;
                        assert(sub[x]@ == s);
                    }
                }
                assert(self@ =~= old(self)@.union(Set::new(|s: Seq<char>| names_has(sub, s))));
            }
            k = k + 1;
        }
        assert(other.bound@.subrange(0, other.bound@.len() as int) =~= other.bound@);
        assert(self@ =~= old(self)@.union(other@));
    }
}

} // verus!
