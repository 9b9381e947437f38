//! A map from strings to sets of strings.

use vstd::prelude::*;
use vstd::hash_map::StringHashMap;
use vstd::string::*;
use crate::text::owned;
use crate::text_set::TextSet;

verus! {

/// What `m` holds under `key`: the set stored there, or the empty set.
pub open spec fn lookup(m: Map<Seq<char>, Set<Seq<char>>>, key: Seq<char>) -> Set<Seq<char>> {
    if m.contains_key(key) {
        m[key]
    } else {
        Set::empty()
    }
}

/// The links of `m`: the pairs of a key and a member of the key's set.
pub open spec fn links(m: Map<Seq<char>, Set<Seq<char>>>) -> Set<(Seq<char>, Seq<char>)> {
    Set::new(|pair: (Seq<char>, Seq<char>)| m.contains_key(pair.0) && m[pair.0].contains(pair.1))
}

/// `n`, as far as `usize` can hold it.
pub open spec fn clipped(n: nat) -> usize {
    if n <= usize::MAX {
        n as usize
    } else {
        usize::MAX
    }
}

/// A finite map from strings to non-empty sets of strings. A key comes into
/// being with its first member.
pub struct TextMap {
    keys: TextSet,
    slots: StringHashMap<usize>,
    groups: Vec<TextSet>,
}

impl View for TextMap {
    type V = Map<Seq<char>, Set<Seq<char>>>;

    closed spec fn view(&self) -> Map<Seq<char>, Set<Seq<char>>> {
        Map::new(
            |k: Seq<char>| self.keys@.contains(k),
            |k: Seq<char>| self.groups[self.slots@[k] as int]@,
        )
    }
}

impl TextMap {
    /// The keys, the slots that the hash index gives them and the sets
    /// agree, and no set is empty.
    pub closed spec fn wf(&self) -> bool {
        &&& self.keys.wf()
        &&& self.groups.len() == self.keys.texts().len()
        &&& self.slots@.dom() == self.keys@
        &&& forall|i: int|
            0 <= i < self.groups.len() ==> {
                &&& (#[trigger] self.groups[i]).wf()
                &&& self.groups[i].texts().len() > 0
            }
        &&& forall|i: int|
            0 <= i < self.keys.texts().len() ==> self.slots@[#[trigger] self.keys.texts()[i]] == i
    }

    /// The empty map.
    pub fn new() -> (m: Self)
        ensures
            m.wf(),
            m@ == Map::<Seq<char>, Set<Seq<char>>>::empty(),
    {
        let m = TextMap { keys: TextSet::new(), slots: StringHashMap::new(), groups: Vec::new() };
        assert(m@ =~= Map::<Seq<char>, Set<Seq<char>>>::empty());
        m
    }

    /// The number of keys.
    pub fn len(&self) -> (n: usize)
        requires
            self.wf(),
        ensures
            n == self@.dom().len(),
            self@.dom().finite(),
    {
        proof {
            self.keys.lemma_len();
            assert(self@.dom() =~= self.keys@);
        }
        self.keys.len()
    }

    /// The set stored under `key`, if there is one.
    pub fn get(&self, key: &str) -> (r: Option<&TextSet>)
        requires
            self.wf(),
        ensures
            match r {
                Some(g) => self@.contains_key(key@) && g@ == self@[key@] && g.wf(),
                None => !self@.contains_key(key@),
            },
    {
        match self.slots.get(key) {
            Some(slot) => {
                proof {
                    self.lemma_slot(key@);
                }
                Some(&self.groups[*slot])
            },
            None => None,
        }
    }

    /// Every set in the map is finite and has a member.
    pub proof fn lemma_groups(&self, key: Seq<char>)
        requires
            self.wf(),
            self@.contains_key(key),
        ensures
            self@[key].finite(),
            self@[key].len() > 0,
            exists|w: Seq<char>| self@[key].contains(w),
            lookup(self@, key) == self@[key],
    {
        self.lemma_slot(key);
        let g = self.groups[self.slots@[key] as int];
        g.lemma_len();
        assert(g@.contains(g.texts()[0]));
    }

    proof fn lemma_slot(&self, key: Seq<char>)
        requires
            self.wf(),
            self.keys@.contains(key),
        ensures
            0 <= self.slots@[key] < self.groups.len(),
            self.keys.texts()[self.slots@[key] as int] == key,
    {
        let i = choose|i: int| 0 <= i < self.keys.texts().len() && self.keys.texts()[i] == key;
        assert(self.slots@[self.keys.texts()[i]] == i);
    }

    /// The links under the first `i` keys.
    closed spec fn links_upto(&self, i: int) -> Set<(Seq<char>, Seq<char>)> {
        Set::new(
            |pair: (Seq<char>, Seq<char>)|
                exists|k: int|
                    0 <= k < i && k < self.keys.texts().len() && self.keys.texts()[k] == pair.0
                        && self.groups[k]@.contains(pair.1),
        )
    }

    /// The links under the `i`-th key.
    closed spec fn links_at(&self, i: int) -> Set<(Seq<char>, Seq<char>)> {
        Set::new(
            |pair: (Seq<char>, Seq<char>)|
                self.keys.texts()[i] == pair.0 && self.groups[i]@.contains(pair.1),
        )
    }

    proof fn lemma_links_step(&self, i: int)
        requires
            self.wf(),
            0 <= i < self.groups.len(),
            self.links_upto(i).finite(),
        ensures
            self.links_upto(i + 1).finite(),
            self.links_upto(i + 1).len() == self.links_upto(i).len() + self.groups[i].texts().len(),
    {
        let key = self.keys.texts()[i];
        let group = self.groups[i];
        let had = self.links_upto(i);
        let block = self.links_at(i);
        let f = |w: Seq<char>| (key, w);
        group.lemma_len();
        assert(group@.map(f) =~= block) by {
            assert forall|pair: (Seq<char>, Seq<char>)| group@.map(f).contains(pair)
                <==> block.contains(pair) by {
                if block.contains(pair) {
                    assert(group@.contains(pair.1) && f(pair.1) == pair);
                }
            }
        }
        assert(vstd::relations::injective_on(f, group@));
        vstd::set_lib::lemma_map_size(group@, block, f);
        assert(had.disjoint(block)) by {
            assert forall|pair: (Seq<char>, Seq<char>)| !(had.contains(pair) && block.contains(pair)) by {
                if had.contains(pair) && block.contains(pair) {
                    let k = choose|k: int|
                        0 <= k < i && k < self.keys.texts().len() && self.keys.texts()[k] == pair.0
                            && self.groups[k]@.contains(pair.1);
                    assert(self.keys.texts()[k] == self.keys.texts()[i]);
                }
            }
        }
        assert(self.links_upto(i + 1) =~= had.union(block)) by {
            assert forall|pair: (Seq<char>, Seq<char>)| self.links_upto(i + 1).contains(pair)
                <==> had.union(block).contains(pair) by {
                if self.links_upto(i + 1).contains(pair) {
                    let k = choose|k: int|
                        0 <= k < i + 1 && k < self.keys.texts().len() && self.keys.texts()[k]
                            == pair.0 && self.groups[k]@.contains(pair.1);
                    if k < i {
                        assert(had.contains(pair));
                    }
                }
                if had.contains(pair) {
                    let k = choose|k: int|
                        0 <= k < i && k < self.keys.texts().len() && self.keys.texts()[k] == pair.0
                            && self.groups[k]@.contains(pair.1);
                    assert(0 <= k < i + 1);
                }
                if block.contains(pair) {
                    assert(0 <= i < i + 1 && self.keys.texts()[i] == pair.0);
                }
            }
        }
        vstd::set_lib::lemma_set_disjoint_lens(had, block);
    }

    /// The number of links, as far as `usize` can hold it.
    pub fn link_count(&self) -> (n: usize)
        requires
            self.wf(),
        ensures
            links(self@).finite(),
            n == clipped(links(self@).len()),
    {
        let count: usize = self.groups.len();
        let mut total: usize = 0;
        let mut i: usize = 0;
        proof {
            assert(self.links_upto(0) =~= Set::<(Seq<char>, Seq<char>)>::empty());
        }
        while i < count
            invariant
                i <= count,
                count == self.groups.len(),
                self.wf(),
                self.links_upto(i as int).finite(),
                total == clipped(self.links_upto(i as int).len()),
            decreases count - i,
        {
            let size: usize = self.groups[i].len();
            proof {
                self.lemma_links_step(i as int);
            }
            total = if total > usize::MAX - size {
                usize::MAX
            } else {
                total + size
            };
            i += 1;
        }
        proof {
            assert(self.links_upto(count as int) =~= links(self@)) by {
                assert forall|pair: (Seq<char>, Seq<char>)| self.links_upto(count as int).contains(pair)
                    <==> links(self@).contains(pair) by {
                    if self.links_upto(count as int).contains(pair) {
                        let k = choose|k: int|
                            0 <= k < count && k < self.keys.texts().len() && self.keys.texts()[k]
                                == pair.0 && self.groups[k]@.contains(pair.1);
                        assert(self.keys@.contains(self.keys.texts()[k]));
                    }
                    if links(self@).contains(pair) {
                        self.lemma_slot(pair.0);
                    }
                }
            }
        }
        total
    }

    /// Puts `item` into the set under `key`, which it creates if need be.
    pub fn add(&mut self, key: &str, item: String)
        requires
            old(self).wf(),
        ensures
            final(self).wf(),
            final(self)@ == old(self)@.insert(key@, lookup(old(self)@, key@).insert(item@)),
    {
        let ghost before = *self;
        match self.slots.get(key) {
            Some(slot) => {
                let i: usize = *slot;
                proof {
                    self.lemma_slot(key@);
                }
                self.groups[i].insert(item);
                proof {
                    assert forall|j: int| 0 <= j < self.groups.len() implies {
                        &&& (#[trigger] self.groups[j]).wf()
                        &&& self.groups[j].texts().len() > 0
                    } by {
                        if j != i {
                            assert(self.groups[j] == before.groups[j]);
                        }
                    }
                    assert(self@ =~= before@.insert(key@, lookup(before@, key@).insert(item@))) by {
                        assert forall|k: Seq<char>| self.keys@.contains(k) implies self@[k] == (
                        if k == key@ {
                            lookup(before@, key@).insert(item@)
                        } else {
                            before@[k]
                        }) by {
                            before.lemma_slot(k);
                            if k != key@ {
                                assert(self.slots@[k] != i);
                            }
                        }
                    }
                }
            },
            None => {
                let mut group = TextSet::new();
                group.insert(item);
                let n: usize = self.groups.len();
                self.keys.insert(owned(key));
                self.slots.insert(owned(key), n);
                self.groups.push(group);
                proof {
                    assert(self.slots@.dom() =~= self.keys@);
                    assert forall|j: int| 0 <= j < self.groups.len() implies {
                        &&& (#[trigger] self.groups[j]).wf()
                        &&& self.groups[j].texts().len() > 0
                    } by {
                        if j < n {
                            assert(self.groups[j] == before.groups[j]);
                        }
                    }
                    assert forall|j: int| 0 <= j < self.keys.texts().len() implies self.slots@[#[trigger] self.keys.texts()[j]]
                        == j by {
                        if j < n {
                            assert(self.keys.texts()[j] == before.keys.texts()[j]);
                            assert(before.keys@.contains(before.keys.texts()[j]));
                        }
                    }
                    assert(self@ =~= before@.insert(key@, lookup(before@, key@).insert(item@))) by {
                        assert forall|k: Seq<char>| self.keys@.contains(k) implies self@[k] == (
                        if k == key@ {
                            lookup(before@, key@).insert(item@)
                        } else {
                            before@[k]
                        }) by {
                            if k != key@ {
                                before.lemma_slot(k);
                            }
                        }
                    }
                }
            },
        }
    }
}

} // verus!
