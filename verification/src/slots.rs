//! An association list keyed by `TypeId`: the storage behind every
//! type-keyed map of the library.
//!
//! Keys are unique; inserting an existing key replaces its value in place,
//! a new key is appended.

use std::any::TypeId;
use vstd::prelude::*;

use crate::typeid::type_id_eq;

verus! {

/// The map denoted by a list of `(key, value)` pairs, later pairs winning.
pub open spec fn pairs_to_map<V>(s: Seq<(TypeId, V)>) -> Map<TypeId, V>
    decreases s.len(),
{
    if s.len() == 0 {
        Map::empty()
    } else {
        pairs_to_map(s.drop_last()).insert(s.last().0, s.last().1)
    }
}

/// No key occurs twice in the list.
pub open spec fn keys_unique<V>(s: Seq<(TypeId, V)>) -> bool {
    forall|a: int, b: int| 0 <= a < b < s.len() ==> #[trigger] s[a].0 != #[trigger] s[b].0
}

proof fn lemma_pairs_to_map_dom<V>(s: Seq<(TypeId, V)>, k: TypeId)
    ensures
        pairs_to_map(s).dom().contains(k) <==> exists|i: int| 0 <= i < s.len() && #[trigger] s[i].0 == k,
    decreases s.len(),
{
    if s.len() > 0 {
        lemma_pairs_to_map_dom(s.drop_last(), k);
        if exists|i: int| 0 <= i < s.len() && #[trigger] s[i].0 == k {
            let i = choose|i: int| 0 <= i < s.len() && #[trigger] s[i].0 == k;
            if i < s.len() - 1 {
                assert(s.drop_last()[i].0 == k);
            }
        }
        if exists|i: int| 0 <= i < s.len() - 1 && #[trigger] s.drop_last()[i].0 == k {
            let i = choose|i: int| 0 <= i < s.len() - 1 && #[trigger] s.drop_last()[i].0 == k;
            assert(s[i].0 == k);
        }
    }
}

proof fn lemma_pairs_to_map_at<V>(s: Seq<(TypeId, V)>, i: int)
    requires
        keys_unique(s),
        0 <= i < s.len(),
    ensures
        pairs_to_map(s).dom().contains(s[i].0),
        pairs_to_map(s)[s[i].0] == s[i].1,
    decreases s.len(),
{
    if i < s.len() - 1 {
        assert(keys_unique(s.drop_last()));
        lemma_pairs_to_map_at(s.drop_last(), i);
        assert(s.drop_last()[i] == s[i]);
        assert(s[i].0 != s.last().0);
    }
}

proof fn lemma_pairs_to_map_len<V>(s: Seq<(TypeId, V)>)
    requires
        keys_unique(s),
    ensures
        pairs_to_map(s).dom().finite(),
        pairs_to_map(s).dom().len() == s.len(),
    decreases s.len(),
{
    if s.len() > 0 {
        let p = s.drop_last();
        assert(keys_unique(p));
        lemma_pairs_to_map_len(p);
        lemma_pairs_to_map_dom(p, s.last().0);
        if pairs_to_map(p).dom().contains(s.last().0) {
            let i = choose|i: int| 0 <= i < p.len() && #[trigger] p[i].0 == s.last().0;
            assert(s[i].0 == s[s.len() - 1].0);
        }
    }
}

/// Unique-keyed list of `(TypeId, V)` pairs, viewed as a finite map.
pub struct TypeSlots<V> {
    entries: Vec<(TypeId, V)>,
}

impl<V> View for TypeSlots<V> {
    type V = Map<TypeId, V>;

    closed spec fn view(&self) -> Map<TypeId, V> {
        pairs_to_map(self.entries@)
    }
}

impl<V> TypeSlots<V> {
    /// Keys are unique.
    pub closed spec fn wf(self) -> bool {
        keys_unique(self.entries@)
    }

    proof fn lemma_view(self)
        requires
            self.wf(),
        ensures
            self@.dom().finite(),
            self@.dom().len() == self.entries@.len(),
            forall|i: int| 0 <= i < self.entries@.len() ==> #[trigger] self@.dom().contains(self.entries@[i].0)
                && self@[self.entries@[i].0] == self.entries@[i].1,
            forall|k: TypeId| #[trigger] self@.dom().contains(k) ==> exists|i: int| 0 <= i < self.entries@.len() && #[trigger] self.entries@[i].0 == k,
    {
        lemma_pairs_to_map_len(self.entries@);
        assert forall|i: int| 0 <= i < self.entries@.len() implies #[trigger] self@.dom().contains(self.entries@[i].0)
            && self@[self.entries@[i].0] == self.entries@[i].1 by {
            lemma_pairs_to_map_at(self.entries@, i);
        }
        assert forall|k: TypeId| #[trigger] self@.dom().contains(k) implies exists|i: int| 0 <= i < self.entries@.len() && #[trigger] self.entries@[i].0 == k by {
            lemma_pairs_to_map_dom(self.entries@, k);
        }
    }

    /// An empty list.
    pub fn new() -> (r: Self)
        ensures
            r.wf(),
            r@ == Map::<TypeId, V>::empty(),
    {
        TypeSlots { entries: Vec::new() }
    }

    /// Position of `key`, if present.
    fn position(&self, key: &TypeId) -> (r: Option<usize>)
        requires
            self.wf(),
        ensures
            r matches Some(i) ==> i < self.entries@.len() && self.entries@[i as int].0 == *key,
            r is None ==> !self@.dom().contains(*key),
    {
        proof {
            self.lemma_view();
        }
        let mut i: usize = 0;
        while i < self.entries.len()
            invariant
                self.wf(),
                i <= self.entries@.len(),
                forall|j: int| 0 <= j < i ==> #[trigger] self.entries@[j].0 != *key,
            decreases self.entries@.len() - i,
        {
            if type_id_eq(&self.entries[i].0, key) {
                return Some(i);
            }
            i += 1;
        }
        proof {
            if self@.dom().contains(*key) {
                let j = choose|j: int| 0 <= j < self.entries@.len() && #[trigger] self.entries@[j].0 == *key;
                assert(self.entries@[j].0 != *key);
            }
        }
        None
    }

    /// Whether `key` is present.
    pub fn contains(&self, key: &TypeId) -> (r: bool)
        requires
            self.wf(),
        ensures
            r == self@.dom().contains(*key),
    {
        proof {
            self.lemma_view();
        }
        self.position(key).is_some()
    }

    /// The value stored under `key`.
    pub fn get(&self, key: &TypeId) -> (r: Option<&V>)
        requires
            self.wf(),
        ensures
            r.is_some() == self@.dom().contains(*key),
            r matches Some(v) ==> *v == self@[*key],
    {
        proof {
            self.lemma_view();
        }
        match self.position(key) {
            Some(i) => {
                proof {
                    lemma_pairs_to_map_at(self.entries@, i as int);
                }
                Some(&self.entries[i].1)
            },
            None => None,
        }
    }

    /// Number of keys.
    pub fn len(&self) -> (r: usize)
        requires
            self.wf(),
        ensures
            r == self@.dom().len(),
    {
        proof {
            self.lemma_view();
        }
        self.entries.len()
    }

    /// Store `value` under `key`, replacing any value already there.
    pub fn insert(&mut self, key: TypeId, value: V)
        requires
            old(self).wf(),
        ensures
            final(self).wf(),
            final(self)@ == old(self)@.insert(key, value),
    {
        proof {
            self.lemma_view();
        }
        match self.position(&key) {
            Some(i) => {
                let ghost before = self.entries@;
                self.entries.set(i, (key, value));
                proof {
                    let after = self.entries@;
                    assert(keys_unique(after)) by {
                        assert forall|a: int, b: int| 0 <= a < b < after.len() implies #[trigger] after[a].0
                            != #[trigger] after[b].0 by {
                            assert(before[a].0 != before[b].0);
                        }
                    }
                    self.lemma_view();
                    assert forall|k: TypeId| #[trigger] self@.dom().contains(k) <==> old(self)@.insert(key, value).dom().contains(k) by {
                        if self@.dom().contains(k) {
                            let j = choose|j: int| 0 <= j < after.len() && #[trigger] after[j].0 == k;
                            if j != i {
                                assert(before[j] == after[j]);
                                lemma_pairs_to_map_at(before, j);
                            }
                        }
                        if old(self)@.dom().contains(k) && k != key {
                            lemma_pairs_to_map_dom(before, k);
                            let j = choose|j: int| 0 <= j < before.len() && #[trigger] before[j].0 == k;
                            assert(after[j] == before[j]);
                            assert(self@.dom().contains(after[j].0));
                        }
                        if k == key {
                            assert(self@.dom().contains(after[i as int].0));
                        }
                    }
                    assert forall|k: TypeId| #[trigger] self@.dom().contains(k) implies self@[k] == old(self)@.insert(key, value)[k] by {
                        let j = choose|j: int| 0 <= j < after.len() && #[trigger] after[j].0 == k;
                        if j != i {
                            assert(before[j] == after[j]);
                            lemma_pairs_to_map_at(before, j);
                        }
                    }
                    assert(self@ =~= old(self)@.insert(key, value));
                }
            },
            None => {
                let ghost before = self.entries@;
                self.entries.push((key, value));
                proof {
                    let after = self.entries@;
                    assert(after.drop_last() =~= before);
                    assert(keys_unique(after)) by {
                        assert forall|a: int, b: int| 0 <= a < b < after.len() implies #[trigger] after[a].0
                            != #[trigger] after[b].0 by {
                            if b == after.len() - 1 {
                                lemma_pairs_to_map_at(before, a);
                                assert(before[a] == after[a]);
                            } else {
                                assert(before[a] == after[a] && before[b] == after[b]);
                            }
                        }
                    }
                }
            },
        }
    }
}

} // verus!
