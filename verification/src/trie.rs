//! A trie: a map from sequences of `K` to `V` that shares common prefixes.

use vstd::prelude::*;
use vstd::pervasive::strictly_cloned;
use vstd::std_specs::hash::{obeys_key_model, group_hash_axioms};
use std::collections::HashMap;
use std::hash::Hash;

verus! {

broadcast use group_hash_axioms;

/// What the trie needs of its key elements: `K` hashes and compares as
/// `HashMap` expects, and a clone of a `K` equals it.
pub open spec fn key_model<K: Clone>() -> bool {
    &&& obeys_key_model::<K>()
    &&& forall|a: K, b: K| #[trigger] strictly_cloned(a, b) ==> a == b
}

/// A node of the trie: the value stored under the key that leads here, and
/// one child for each next key element.
#[derive(Debug)]
pub struct Trie<K: Eq + Hash + Clone, V> {
    children: HashMap<K, Trie<K, V>>,
    payload: Option<V>,
}

impl<K: Eq + Hash + Clone, V> Trie<K, V> {
    /// The value stored under `key`, if any: the payload of the node that
    /// `key` leads to from this one.
    pub closed spec fn lookup(&self, key: Seq<K>) -> Option<V>
        decreases key.len(),
    {
        if key.len() == 0 {
            self.payload
        } else if self.children@.contains_key(key.first()) {
            self.children@[key.first()].lookup(key.drop_first())
        } else {
            None
        }
    }

    /// The trie as a map from keys to values.
    pub open spec fn view(&self) -> Map<Seq<K>, V> {
        Map::new(|key: Seq<K>| self.lookup(key) is Some, |key: Seq<K>| self.lookup(key)->0)
    }

    /// An empty trie.
    pub fn new() -> (trie: Trie<K, V>)
        ensures
            trie@ == Map::<Seq<K>, V>::empty(),
    {
        let trie = Trie { children: HashMap::new(), payload: None };
        assert forall|key: Seq<K>| trie.lookup(key) is None by {}
        assert(trie@ =~= Map::<Seq<K>, V>::empty());
        trie
    }

    /// The value stored under `key`, if any.
    pub fn find(&self, key: &[K]) -> (found: Option<&V>)
        requires
            key_model::<K>(),
        ensures
            found is Some <==> self@.contains_key(key@),
            found matches Some(v) ==> *v == self@[key@],
    {
        let mut curr = self;
        let mut i: usize = 0;
        assert(key@.skip(0) =~= key@);
        while i < key.len()
            invariant
                key_model::<K>(),
                i <= key@.len(),
                curr.lookup(key@.skip(i as int)) == self.lookup(key@),
            decreases key@.len() - i,
        {
            let k = &key[i];
            proof {
                assert(key@.skip(i as int).first() == *k);
                assert(key@.skip(i as int).drop_first() =~= key@.skip(i + 1));
            }
            match curr.children.get(k) {
                None => {
                    return None;
                },
                Some(child) => {
                    curr = child;
                },
            }
            i += 1;
        }
        assert(key@.skip(i as int).len() == 0);
        match curr.payload {
            None => None,
            Some(ref p) => Some(p),
        }
    }

    /// Stores `value` under the rest of `key` from index `i` on, seen from
    /// this node.
    fn insert_from(&mut self, key: &[K], i: usize, value: V)
        requires
            key_model::<K>(),
            i <= key@.len(),
        ensures
            forall|q: Seq<K>|
                #[trigger] final(self).lookup(q) == if q == key@.skip(i as int) {
                    Some(value)
                } else {
                    old(self).lookup(q)
                },
        decreases key@.len() - i,
    {
        let ghost rest = key@.skip(i as int);
        if i == key.len() {
            self.payload = Some(value);
            assert forall|q: Seq<K>| #[trigger] self.lookup(q) == if q == rest {
                Some(value)
            } else {
                old(self).lookup(q)
            } by {
                if q.len() == 0 {
                    assert(q =~= rest);
                }
            }
        } else {
            let k = &key[i];
            let mut child = match self.children.remove(k) {
                Some(child) => child,
                None => Trie::new(),
            };
            let ghost before = child;
            child.insert_from(key, i + 1, value);
            let owned = k.clone();
            assert(strictly_cloned(*k, owned));
            self.children.insert(owned, child);
            assert forall|q: Seq<K>| #[trigger] self.lookup(q) == if q == rest {
                Some(value)
            } else {
                old(self).lookup(q)
            } by {
                assert(rest.first() == *k);
                assert(rest.drop_first() =~= key@.skip(i + 1));
                if q.len() > 0 && q.first() == *k {
                    assert(self.lookup(q) == child.lookup(q.drop_first()));
                    if q.drop_first() == rest.drop_first() {
                        assert(q =~= seq![*k] + q.drop_first());
                        assert(rest =~= seq![*k] + rest.drop_first());
                    } else {
                        if !old(self).children@.contains_key(*k) {
                            // the child is new: nothing is stored below it
                            assert(!before@.contains_key(q.drop_first()));
                        }
                    }
                }
            }
        }
    }

    /// Stores `value` under `key`, in place of what was stored there.
    pub fn insert(&mut self, key: &[K], value: V)
        requires
            key_model::<K>(),
        ensures
            final(self)@ == old(self)@.insert(key@, value),
    {
        self.insert_from(key, 0, value);
        assert(key@.skip(0) =~= key@);
        assert(self@ =~= old(self)@.insert(key@, value));
    }

    /// Takes out what is stored under the rest of `key` from index `i` on,
    /// seen from this node.
    fn remove_from(&mut self, key: &[K], i: usize) -> (removed: Option<V>)
        requires
            key_model::<K>(),
            i <= key@.len(),
        ensures
            removed == old(self).lookup(key@.skip(i as int)),
            forall|q: Seq<K>|
                #[trigger] final(self).lookup(q) == if q == key@.skip(i as int) {
                    None
                } else {
                    old(self).lookup(q)
                },
        decreases key@.len() - i,
    {
        let ghost rest = key@.skip(i as int);
        if i == key.len() {
            let removed = self.payload.take();
            assert forall|q: Seq<K>| #[trigger] self.lookup(q) == if q == rest {
                None
            } else {
                old(self).lookup(q)
            } by {
                if q.len() == 0 {
                    assert(q =~= rest);
                }
            }
            removed
        } else {
            let k = &key[i];
            assert(rest.first() == *k);
            assert(rest.drop_first() =~= key@.skip(i + 1));
            match self.children.remove(k) {
                None => {
                    assert forall|q: Seq<K>| #[trigger] self.lookup(q) == if q == rest {
                        None
                    } else {
                        old(self).lookup(q)
                    } by {}
                    None
                },
                Some(child) => {
                    let mut child = child;
                    let ghost before = child;
                    let removed = child.remove_from(key, i + 1);
                    let owned = k.clone();
                    assert(strictly_cloned(*k, owned));
                    self.children.insert(owned, child);
                    assert forall|q: Seq<K>| #[trigger] self.lookup(q) == if q == rest {
                        None
                    } else {
                        old(self).lookup(q)
                    } by {
                        if q.len() > 0 && q.first() == *k {
                            assert(self.lookup(q) == child.lookup(q.drop_first()));
                            if q.drop_first() == rest.drop_first() {
                                assert(q =~= seq![*k] + q.drop_first());
                                assert(rest =~= seq![*k] + rest.drop_first());
                            }
                        }
                    }
                    removed
                },
            }
        }
    }

    /// Takes out and returns what is stored under `key`, if anything.
    pub fn remove(&mut self, key: &[K]) -> (removed: Option<V>)
        requires
            key_model::<K>(),
        ensures
            removed is Some <==> old(self)@.contains_key(key@),
            removed matches Some(v) ==> v == old(self)@[key@],
            final(self)@ == old(self)@.remove(key@),
    {
        let removed = self.remove_from(key, 0);
        assert(key@.skip(0) =~= key@);
        assert(self@ =~= old(self)@.remove(key@));
        removed
    }

    /// Whether a value is stored under `key`.
    pub fn contains(&self, key: &[K]) -> (found: bool)
        requires
            key_model::<K>(),
        ensures
            found == self@.contains_key(key@),
    {
        self.find(key).is_some()
    }
}

} // verus!
