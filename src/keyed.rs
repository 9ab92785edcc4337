//! A small map from string keys to values, kept as a list of entries.
//!
//! Lookups find the first entry with the requested key; `insert` replaces
//! the value of an existing key in place, so keys stay unique and the order
//! in which keys were first inserted is kept.
use vstd::prelude::*;

use crate::text::same_text;

verus! {

/// The value stored under `k` in `entries`: the first entry with that key.
pub open spec fn lookup<V>(entries: Seq<(String, V)>, k: Seq<char>) -> Option<V>
    decreases entries.len(),
{
    if entries.len() == 0 {
        None
    } else if entries[0].0@ == k {
        Some(entries[0].1)
    } else {
        lookup(entries.drop_first(), k)
    }
}

pub proof fn lemma_lookup_at<V>(entries: Seq<(String, V)>, k: Seq<char>, i: int)
    requires
        0 <= i <= entries.len(),
        forall|j: int| 0 <= j < i ==> entries[j].0@ != k,
        i < entries.len() ==> entries[i].0@ == k,
    ensures
        i < entries.len() ==> lookup(entries, k) == Some(entries[i].1),
        i == entries.len() ==> lookup(entries, k) is None,
    decreases entries.len(),
{
    if entries.len() > 0 && i > 0 {
        let rest = entries.drop_first();
        assert forall|j: int| 0 <= j < i - 1 implies rest[j].0@ != k by {
            assert(rest[j] == entries[j + 1]);
        }
        lemma_lookup_at(rest, k, i - 1);
    }
}

/// Replacing the value of the first entry with key `k` changes that key only.
proof fn lemma_lookup_update<V>(entries: Seq<(String, V)>, k: Seq<char>, i: int, e: (String, V))
    requires
        0 <= i < entries.len(),
        entries[i].0@ == k,
        forall|j: int| 0 <= j < i ==> entries[j].0@ != k,
        e.0@ == k,
    ensures
        forall|q: Seq<char>| #[trigger]
            lookup(entries.update(i, e), q) == if q == k {
                Some(e.1)
            } else {
                lookup(entries, q)
            },
    decreases entries.len(),
{
    let n = entries.update(i, e);
    if i == 0 {
        assert(n.drop_first() =~= entries.drop_first());
    } else {
        let rest = entries.drop_first();
        assert forall|j: int| 0 <= j < i - 1 implies rest[j].0@ != k by {
            assert(rest[j] == entries[j + 1]);
        }
        lemma_lookup_update(rest, k, i - 1, e);
        assert(n.drop_first() =~= entries.drop_first().update(i - 1, e));
    }
    assert forall|q: Seq<char>| #[trigger]
        lookup(n, q) == if q == k {
            Some(e.1)
        } else {
            lookup(entries, q)
        } by {
        if i > 0 {
            assert(n[0] == entries[0]);
            assert(lookup(entries.drop_first().update(i - 1, e), q) == if q == k {
                Some(e.1)
            } else {
                lookup(entries.drop_first(), q)
            });
        }
    }
}

/// Appending an entry whose key is absent adds that key only.
proof fn lemma_lookup_push<V>(entries: Seq<(String, V)>, e: (String, V))
    requires
        lookup(entries, e.0@) is None,
    ensures
        forall|q: Seq<char>| #[trigger]
            lookup(entries.push(e), q) == if q == e.0@ {
                Some(e.1)
            } else {
                lookup(entries, q)
            },
    decreases entries.len(),
{
    let n = entries.push(e);
    if entries.len() > 0 {
        lemma_lookup_push(entries.drop_first(), e);
        assert(n.drop_first() =~= entries.drop_first().push(e));
        assert(n[0] == entries[0]);
    } else {
        assert(n.drop_first() =~= entries);
    }
    assert forall|q: Seq<char>| #[trigger]
        lookup(n, q) == if q == e.0@ {
            Some(e.1)
        } else {
            lookup(entries, q)
        } by {
        if entries.len() > 0 {
            assert(lookup(entries.drop_first().push(e), q) == if q == e.0@ {
                Some(e.1)
            } else {
                lookup(entries.drop_first(), q)
            });
        }
    }
}

/// A map from string keys to values.
#[derive(Debug)]
pub struct KeyedMap<V> {
    entries: Vec<(String, V)>,
}

impl<V> View for KeyedMap<V> {
    type V = Map<Seq<char>, V>;

    closed spec fn view(&self) -> Map<Seq<char>, V> {
        Map::new(
            |k: Seq<char>| lookup(self.entries@, k) is Some,
            |k: Seq<char>| lookup(self.entries@, k)->0,
        )
    }
}

/// The key of some entry is stored.
proof fn lemma_lookup_entry<V>(entries: Seq<(String, V)>, j: int)
    requires
        0 <= j < entries.len(),
    ensures
        lookup(entries, entries[j].0@) is Some,
    decreases entries.len(),
{
    if j > 0 && entries[0].0@ != entries[j].0@ {
        assert(entries.drop_first()[j - 1] == entries[j]);
        lemma_lookup_entry(entries.drop_first(), j - 1);
    }
}

/// A stored key is the key of some entry.
proof fn lemma_lookup_some<V>(entries: Seq<(String, V)>, k: Seq<char>)
    requires
        lookup(entries, k) is Some,
    ensures
        exists|j: int| 0 <= j < entries.len() && #[trigger] entries[j].0@ == k,
    decreases entries.len(),
{
    if entries[0].0@ != k {
        lemma_lookup_some(entries.drop_first(), k);
        let j = choose|j: int| 0 <= j < entries.len() - 1 && #[trigger] entries.drop_first()[j].0@ == k;
        assert(entries[j + 1] == entries.drop_first()[j]);
    }
}

impl<V> KeyedMap<V> {
    /// The keys of the entries, in order; every stored key is among them.
    pub closed spec fn keys(&self) -> Seq<Seq<char>> {
        self.entries@.map_values(|e: (String, V)| e.0@)
    }

    /// A key is stored exactly when it is among the keys.
    pub proof fn lemma_keys(&self)
        ensures
            forall|k: Seq<char>| #[trigger] self@.contains_key(k) <==> self.keys().contains(k),
    {
        assert forall|k: Seq<char>| #[trigger] self@.contains_key(k) <==> self.keys().contains(k) by {
            if self@.contains_key(k) {
                lemma_lookup_some(self.entries@, k);
                let j = choose|j: int| 0 <= j < self.entries@.len() && #[trigger] self.entries@[j].0@ == k;
                assert(self.keys()[j] == k);
            }
            if self.keys().contains(k) {
                let j = choose|j: int| 0 <= j < self.keys().len() && self.keys()[j] == k;
                lemma_lookup_entry(self.entries@, j);
            }
        }
    }

    /// The number of entries.
    pub fn len(&self) -> (r: usize)
        ensures
            r == self.keys().len(),
    {
        self.entries.len()
    }

    /// The key of entry `i`.
    pub fn key(&self, i: usize) -> (r: &String)
        requires
            i < self.keys().len(),
        ensures
            r@ == self.keys()[i as int],
    {
        &self.entries[i].0
    }

    /// An empty map.
    pub fn new() -> (r: Self)
        ensures
            r@ == Map::<Seq<char>, V>::empty(),
    {
        let r = KeyedMap { entries: Vec::new() };
        assert(r@ =~= Map::<Seq<char>, V>::empty());
        r
    }

    fn find(&self, k: &str) -> (r: usize)
        ensures
            r <= self.entries@.len(),
            r < self.entries@.len() ==> self.entries@[r as int].0@ == k@,
            forall|j: int| 0 <= j < r ==> self.entries@[j].0@ != k@,
            r < self.entries@.len() ==> lookup(self.entries@, k@) == Some(self.entries@[r as int].1),
            r == self.entries@.len() ==> lookup(self.entries@, k@) is None,
    {
        let mut i: usize = 0;
        while i < self.entries.len() && !same_text(self.entries[i].0.as_str(), k)
            invariant
                i <= self.entries@.len(),
                forall|j: int| 0 <= j < i ==> self.entries@[j].0@ != k@,
            decreases self.entries@.len() - i,
        {
            i = i + 1;
        }
        proof {
            lemma_lookup_at(self.entries@, k@, i as int);
        }
        i
    }

    /// The value stored under `k`, if any.
    pub fn get(&self, k: &str) -> (r: Option<&V>)
        ensures
            r is Some == self@.contains_key(k@),
            r is Some ==> *(r->0) == self@[k@],
    {
        let i = self.find(k);
        if i < self.entries.len() {
            Some(&self.entries[i].1)
        } else {
            None
        }
    }

    /// Store `v` under `k`, replacing any value that was there.
    pub fn insert(&mut self, k: String, v: V)
        ensures
            final(self)@ == old(self)@.insert(k@, v),
    {
        let i = self.find(k.as_str());
        let ghost old_entries = self.entries@;
        let ghost e = (k, v);
        if i < self.entries.len() {
            self.entries[i] = (k, v);
            proof {
                lemma_lookup_update(old_entries, e.0@, i as int, e);
            }
        } else {
            self.entries.push((k, v));
            proof {
                lemma_lookup_push(old_entries, e);
            }
        }
        assert(self@ =~= old(self)@.insert(e.0@, e.1));
    }
}

/// Every key of `a` is a key of `b`, with a value of the same characters.
fn covers(a: &KeyedMap<String>, b: &KeyedMap<String>) -> (r: bool)
    ensures
        r == forall|k: Seq<char>| #[trigger] a@.contains_key(k) ==> b@.contains_key(k) && a@[k]@ == b@[k]@,
{
    proof {
        a.lemma_keys();
    }
    let mut i: usize = 0;
    while i < a.len()
        invariant
            i <= a.keys().len(),
            forall|k: Seq<char>| #[trigger] a@.contains_key(k) <==> a.keys().contains(k),
            forall|j: int|
                0 <= j < i ==> b@.contains_key(#[trigger] a.keys()[j]) && a@[a.keys()[j]]@ == b@[a.keys()[j]]@,
        decreases a.keys().len() - i,
    {
        let k = a.key(i).as_str();
        proof {
            assert(a.keys().contains(k@));
        }
        match (a.get(k), b.get(k)) {
            (Some(x), Some(y)) => {
                if !same_text(x.as_str(), y.as_str()) {
                    return false;
                }
            },
            _ => {
                return false;
            },
        }
        i = i + 1;
    }
    proof {
        assert forall|k: Seq<char>| #[trigger] a@.contains_key(k) implies b@.contains_key(k) && a@[k]@ == b@[k]@ by {
            let j = choose|j: int| 0 <= j < a.keys().len() && a.keys()[j] == k;
        }
    }
    true
}

/// Two attribute maps are equal when they hold the same keys with values of
/// the same characters, in whatever order they were inserted.
impl PartialEq for KeyedMap<String> {
    fn eq(&self, other: &KeyedMap<String>) -> (r: bool) {
        let r = covers(self, other) && covers(other, self);
        proof {
            if r {
                assert(self@.dom() =~= other@.dom());
            }
            if self@.dom() == other@.dom() && forall|k: Seq<char>| #[trigger]
                self@.contains_key(k) ==> self@[k]@ == other@[k]@ {
                assert forall|k: Seq<char>| #[trigger] other@.contains_key(k) implies self@.contains_key(k)
                    && other@[k]@ == self@[k]@ by {
                    assert(other@.dom().contains(k));
                }
            }
        }
        r
    }
}

impl vstd::std_specs::cmp::PartialEqSpecImpl for KeyedMap<String> {
    open spec fn obeys_eq_spec() -> bool {
        true
    }

    open spec fn eq_spec(&self, other: &KeyedMap<String>) -> bool {
        &&& self@.dom() == other@.dom()
        &&& forall|k: Seq<char>| #[trigger] self@.contains_key(k) ==> self@[k]@ == other@[k]@
    }
}

} // verus!
