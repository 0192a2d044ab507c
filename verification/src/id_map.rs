//! A map from ids to what they stand for.
use std::collections::HashMap;
use vstd::prelude::*;

verus! {

/// Ids and what they stand for.
#[derive(Debug)]
pub struct KeyMap<V> {
    entries: HashMap<i64, V>,
}

/// Whether the list holds the id.
pub fn contains_id(ids: &Vec<u32>, id: u32) -> (found: bool)
    ensures
        found == ids@.contains(id),
{
    let mut i: usize = 0;
    while i < ids.len()
        invariant
            i <= ids@.len(),
            forall|j: int| 0 <= j < i ==> #[trigger] ids@[j] != id,
        decreases ids@.len() - i,
    {
        if ids[i] == id {
            return true;
        }
        i += 1;
    }
    false
}

/// The entries of a map whose key and value satisfy a condition.
pub open spec fn restricted<V>(m: Map<i64, V>, keep: spec_fn(i64, V) -> bool) -> Map<i64, V> {
    Map::new(|k: i64| m.dom().contains(k) && keep(k, m[k]), |k: i64| m[k])
}

/// Some id stands for this value.
pub open spec fn stands_for(m: Map<i64, u32>, value: i64) -> bool {
    exists|k: i64| #[trigger] m.dom().contains(k) && m[k] == value
}

impl<V> View for KeyMap<V> {
    type V = Map<i64, V>;

    closed spec fn view(&self) -> Map<i64, V> {
        self.entries@
    }
}

impl<V: Copy> KeyMap<V> {
    /// An empty map.
    pub fn new() -> (map: KeyMap<V>)
        ensures
            map@ == Map::<i64, V>::empty(),
    {
        KeyMap { entries: HashMap::new() }
    }

    /// The value an id stands for.
    pub fn get(&self, key: i64) -> (value: Option<V>)
        ensures
            value == (if self@.dom().contains(key) {
                Some(self@[key])
            } else {
                None
            }),
    {
        broadcast use vstd::std_specs::hash::group_hash_axioms;

        match self.entries.get(&key) {
            Some(value) => Some(*value),
            None => None,
        }
    }

    /// Lets an id stand for a value.
    pub fn insert(&mut self, key: i64, value: V)
        ensures
            final(self)@ == old(self)@.insert(key, value),
    {
        broadcast use vstd::std_specs::hash::group_hash_axioms;

        self.entries.insert(key, value);
    }

    /// Keeps the entries whose id is in the list.
    pub fn retain_keys(&mut self, keys: &Vec<i64>)
        ensures
            final(self)@ == restricted(old(self)@, |k: i64, v: V| keys@.contains(k)),
    {
        broadcast use vstd::std_specs::hash::group_hash_axioms;

        let mut kept: KeyMap<V> = KeyMap::new();
        let mut i: usize = 0;
        while i < keys.len()
            invariant
                i <= keys@.len(),
                *self == *old(self),
                forall|k: i64| #[trigger]
                    kept@.dom().contains(k) <==> self@.dom().contains(k) && keys@.take(
                        i as int,
                    ).contains(k),
                forall|k: i64| #[trigger] kept@.dom().contains(k) ==> kept@[k] == self@[k],
            decreases keys@.len() - i,
        {
            let key: i64 = keys[i];
            match self.get(key) {
                Some(value) => {
                    kept.insert(key, value);
                },
                None => {},
            }
            proof {
                lemma_push_contains(keys@.take(i as int), key);
                assert(keys@.take(i + 1) == keys@.take(i as int).push(key));
            }
            i += 1;
        }
        assert(keys@.take(i as int) == keys@);
        assert(kept@ =~= restricted(self@, |k: i64, v: V| keys@.contains(k)));
        self.entries = kept.entries;
    }

    /// The ids.
    fn keys(&self) -> (keys: Vec<i64>)
        ensures
            forall|k: i64| #[trigger] keys@.contains(k) <==> self@.dom().contains(k),
    {
        broadcast use vstd::std_specs::hash::group_hash_axioms;

        let mut keys: Vec<i64> = Vec::new();
        for key in it: self.entries.keys()
            invariant
                keys@ == it.seq().unref().take(it.index() as int),
                it.seq().unref().to_set() == self.entries@.dom(),
                it.index() == it.seq().len() ==> keys@ == it.seq().unref(),
        {
            keys.push(*key);
            assert(keys@ =~= it.seq().unref().take(it.index() + 1));
        }
        assert(keys@.to_set() == self@.dom());
        assert forall|k: i64| #[trigger] keys@.contains(k) <==> self@.dom().contains(k) by {
            assert(keys@.to_set().contains(k) <==> keys@.contains(k));
        }
        keys
    }
}

pub proof fn lemma_push_contains<A>(s: Seq<A>, x: A)
    ensures
        forall|y: A| #[trigger] s.push(x).contains(y) <==> s.contains(y) || y == x,
{
    assert forall|y: A| #[trigger] s.push(x).contains(y) <==> s.contains(y) || y == x by {
        if s.contains(y) {
            let j = choose|j: int| 0 <= j < s.len() && s[j] == y;
            assert(s.push(x)[j] == y);
        }
        if y == x {
            assert(s.push(x)[s.len() as int] == x);
        }
    }
}

impl KeyMap<u32> {
    /// Keeps the entries whose track id is (or is not) in the list.
    pub fn retain_values(&mut self, ids: &Vec<u32>, listed: bool)
        ensures
            final(self)@ == restricted(old(self)@, |k: i64, v: u32| ids@.contains(v) == listed),
    {
        let keys = self.keys();
        let mut chosen: Vec<i64> = Vec::new();
        let mut i: usize = 0;
        while i < keys.len()
            invariant
                i <= keys@.len(),
                *self == *old(self),
                forall|k: i64| #[trigger] keys@.contains(k) <==> self@.dom().contains(k),
                forall|k: i64| #[trigger]
                    chosen@.contains(k) <==> keys@.take(i as int).contains(k) && ids@.contains(
                        self@[k],
                    ) == listed,
            decreases keys@.len() - i,
        {
            let key: i64 = keys[i];
            assert(keys@.contains(key));
            match self.get(key) {
                Some(value) => {
                    if contains_id(ids, value) == listed {
                        proof {
                            lemma_push_contains(chosen@, key);
                        }
                        chosen.push(key);
                    }
                },
                None => {},
            }
            proof {
                lemma_push_contains(keys@.take(i as int), key);
                assert(keys@.take(i + 1) == keys@.take(i as int).push(key));
            }
            i += 1;
        }
        assert(keys@.take(i as int) == keys@);
        let ghost before = self@;
        self.retain_keys(&chosen);
        assert(self@ =~= restricted(before, |k: i64, v: u32| ids@.contains(v) == listed));
    }

    /// The values in use, as keys of another map.
    pub fn values(&self) -> (ids: Vec<i64>)
        ensures
            forall|id: i64| #[trigger] ids@.contains(id) <==> stands_for(self@, id),
    {
        let keys = self.keys();
        let mut ids: Vec<i64> = Vec::new();
        let mut i: usize = 0;
        while i < keys.len()
            invariant
                i <= keys@.len(),
                forall|k: i64| #[trigger] keys@.contains(k) <==> self@.dom().contains(k),
                ids@ == Seq::new(i as nat, |j: int| self@[keys@[j]] as i64),
            decreases keys@.len() - i,
        {
            let key: i64 = keys[i];
            assert(keys@.contains(key));
            match self.get(key) {
                Some(value) => {
                    ids.push(value as i64);
                },
                None => {},
            }
            i += 1;
            assert(ids@ =~= Seq::new(i as nat, |j: int| self@[keys@[j]] as i64));
        }
        proof {
            assert forall|id: i64| #[trigger] ids@.contains(id) <==> stands_for(self@, id) by {
                if ids@.contains(id) {
                    let j = choose|j: int| 0 <= j < ids@.len() && ids@[j] == id;
                    assert(keys@.contains(keys@[j]));
                    assert(self@.dom().contains(keys@[j]));
                }
                if stands_for(self@, id) {
                    let k = choose|k: i64| #[trigger] self@.dom().contains(k) && self@[k] == id;
                    assert(keys@.contains(k));
                    let j = choose|j: int| 0 <= j < keys@.len() && keys@[j] == k;
                    assert(ids@[j] == id);
                }
            }
        }
        ids
    }

    /// Whether some id stands for this value.
    pub fn has_value(&self, value: u32) -> (found: bool)
        ensures
            found == stands_for(self@, value as i64),
    {
        let ids = self.values();
        let mut i: usize = 0;
        while i < ids.len()
            invariant
                i <= ids@.len(),
                forall|id: i64| #[trigger] ids@.contains(id) <==> stands_for(self@, id),
                forall|j: int| 0 <= j < i ==> #[trigger] ids@[j] != value as i64,
            decreases ids@.len() - i,
        {
            if ids[i] == value as i64 {
                assert(ids@.contains(value as i64));
                return true;
            }
            i += 1;
        }
        assert(!ids@.contains(value as i64));
        false
    }
}

} // verus!
