//! A set of strings that remembers the order in which its members came.

use vstd::prelude::*;
use vstd::hash_set::StringHashSet;
use vstd::string::*;
use crate::text::{lemma_views_push, views};

verus! {

/// A finite set of strings. Membership is answered by hashing; the members
/// can also be walked by index, in the order of their first insertion. The
/// hash set of strings that vstd specifies answers membership but cannot be
/// walked, so the members are kept in a list beside it.
pub struct TextSet {
    items: Vec<String>,
    index: StringHashSet,
}

impl View for TextSet {
    type V = Set<Seq<char>>;

    /// The members, as a set of character sequences.
    open spec fn view(&self) -> Set<Seq<char>> {
        self.texts().to_set()
    }
}

impl TextSet {
    /// The members in insertion order.
    pub closed spec fn texts(&self) -> Seq<Seq<char>> {
        views(self.items@)
    }

    /// What the hash index holds.
    pub closed spec fn indexed(&self) -> Set<Seq<char>> {
        self.index@
    }

    /// No member is listed twice, and the hash index agrees with the list.
    pub open spec fn wf(&self) -> bool {
        &&& self.texts().no_duplicates()
        &&& self.indexed() == self@
    }

    /// The empty set.
    pub fn new() -> (s: Self)
        ensures
            s.wf(),
            s.texts() == Seq::<Seq<char>>::empty(),
            s@ == Set::<Seq<char>>::empty(),
    {
        let s = TextSet { items: Vec::new(), index: StringHashSet::new() };
        assert(s.texts() =~= Seq::<Seq<char>>::empty());
        assert(s@ =~= Set::<Seq<char>>::empty());
        s
    }

    /// The number of members.
    pub fn len(&self) -> (n: usize)
        ensures
            n == self.texts().len(),
    {
        self.items.len()
    }

    /// The `i`-th member in insertion order.
    pub fn get(&self, i: usize) -> (s: &String)
        requires
            i < self.texts().len(),
        ensures
            s@ == self.texts()[i as int],
    {
        &self.items[i]
    }

    /// Tells whether `s` is a member.
    pub fn contains(&self, s: &str) -> (b: bool)
        requires
            self.wf(),
        ensures
            b == self@.contains(s@),
    {
        self.index.contains(s)
    }

    /// Adds `s`; returns whether it was new.
    pub fn insert(&mut self, s: String) -> (fresh: bool)
        requires
            old(self).wf(),
        ensures
            final(self).wf(),
            final(self)@ == old(self)@.insert(s@),
            fresh == !old(self)@.contains(s@),
            final(self).texts() == if fresh {
                old(self).texts().push(s@)
            } else {
                old(self).texts()
            },
    {
        if self.index.contains(s.as_str()) {
            assert(self@.insert(s@) =~= self@);
            return false;
        }
        let ghost before = self.texts();
        self.index.insert(s.clone());
        self.items.push(s);
        proof {
            assert(self.texts() =~= before.push(s@));
            assert(self@ =~= before.to_set().insert(s@)) by {
                assert forall|t: Seq<char>| self@.contains(t) <==> before.to_set().insert(s@).contains(
                    t,
                ) by {
                    if self@.contains(t) {
                        let k = choose|k: int| 0 <= k < self.texts().len() && self.texts()[k] == t;
                        if k < before.len() {
                            assert(before[k] == t);
                        }
                    }
                    if before.to_set().contains(t) {
                        let k = choose|k: int| 0 <= k < before.len() && before[k] == t;
                        assert(self.texts()[k] == t);
                    }
                    if t == s@ {
                        assert(self.texts()[before.len() as int] == t);
                    }
                }
            }
        }
        true
    }

    /// Copies of the members, in insertion order.
    pub fn to_vec(&self) -> (v: Vec<String>)
        ensures
            views(v@) == self.texts(),
    {
        let mut v: Vec<String> = Vec::new();
        let mut i: usize = 0;
        while i < self.items.len()
            invariant
                i <= self.items.len(),
                views(v@) == self.texts().subrange(0, i as int),
            decreases self.items.len() - i,
        {
            let ghost had = v@;
            let item: String = self.items[i].clone();
            v.push(item);
            proof {
                lemma_views_push(had, item);
                assert(views(v@) =~= self.texts().subrange(0, i + 1));
            }
            i += 1;
        }
        assert(self.texts().subrange(0, i as int) =~= self.texts());
        v
    }

    /// The set is finite and has as many members as the list has entries.
    pub proof fn lemma_len(&self)
        requires
            self.wf(),
        ensures
            self@.finite(),
            self@.len() == self.texts().len(),
    {
        self.texts().unique_seq_to_set();
    }

    /// Membership in the set is membership in the list.
    pub proof fn lemma_member(&self, t: Seq<char>)
        ensures
            self@.contains(t) <==> exists|i: int| 0 <= i < self.texts().len() && self.texts()[i] == t,
    {
    }
}

} // verus!
