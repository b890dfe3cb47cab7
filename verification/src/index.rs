//! Bidirectional key <-> position store: keys are appended in parse order and
//! the position they receive is their index in that order.

use vstd::prelude::*;
use vstd::hash_map::StringHashMap;

verus! {

/// The forward map that an `Indexer` keeps beside its key list: each key of
/// `keys` is mapped to the position of its last occurrence.
pub open spec fn index_map_of(keys: Seq<Seq<char>>) -> Map<Seq<char>, usize>
    decreases keys.len(),
{
    if keys.len() == 0 {
        Map::empty()
    } else {
        index_map_of(keys.drop_last()).insert(keys.last(), (keys.len() - 1) as usize)
    }
}

/// With unique keys, every key of the list is mapped to its own position:
/// `key_to_index[k] == i` exactly when `index_to_key[i] == k`.
pub proof fn lemma_index_map_complete(keys: Seq<Seq<char>>, i: int)
    requires
        0 <= i < keys.len(),
        forall|a: int, b: int| 0 <= a < b < keys.len() ==> keys[a] != keys[b],
    ensures
        index_map_of(keys).contains_key(keys[i]),
        index_map_of(keys)[keys[i]] == i as usize,
    decreases keys.len(),
{
    if i < keys.len() - 1 {
        assert(forall|t: int| 0 <= t < keys.len() - 1 ==> #[trigger] keys.drop_last()[t] == keys[t]);
        lemma_index_map_complete(keys.drop_last(), i);
    }
}

/// Every mapped key resolves back to itself: the position the map gives holds
/// that very key (with duplicate keys, the last occurrence).
pub proof fn lemma_index_map_resolves(keys: Seq<Seq<char>>, k: Seq<char>)
    requires
        keys.len() <= usize::MAX,
        index_map_of(keys).contains_key(k),
    ensures
        index_map_of(keys)[k] < keys.len(),
        keys[index_map_of(keys)[k] as int] == k,
        forall|t: int| index_map_of(keys)[k] < t < keys.len() ==> keys[t] != k,
    decreases keys.len(),
{
    let m = index_map_of(keys);
    if keys.len() == 0 {
        assert(m =~= Map::<Seq<char>, usize>::empty());
    } else if k == keys.last() {
        assert(m[k] == (keys.len() - 1) as usize);
        assert(keys[keys.len() - 1] == keys.last());
    } else {
        let inner = index_map_of(keys.drop_last());
        assert(inner.contains_key(k));
        lemma_index_map_resolves(keys.drop_last(), k);
        assert(forall|t: int| 0 <= t < keys.len() - 1 ==> #[trigger] keys.drop_last()[t] == keys[t]);
        assert(keys[m[k] as int] == k);
        assert forall|t: int| m[k] < t < keys.len() implies keys[t] != k by {
            if t < keys.len() - 1 {
                assert(keys.drop_last()[t] != k);
            }
        }
    }
}

/// Append-only store of record keys. A key's position is the order in which it
/// was added; `key_to_index` resolves a key back to the position of its last
/// occurrence (duplicate keys overwrite the reverse mapping, last one wins,
/// while the key list still gains an entry).
pub struct Indexer {
    key_to_index: StringHashMap<usize>,
    index_to_key: Vec<String>,
}

impl View for Indexer {
    type V = Seq<Seq<char>>;

    closed spec fn view(&self) -> Seq<Seq<char>> {
        self.index_to_key@.map_values(|s: String| s@)
    }
}

impl Default for Indexer {
    /// An empty store.
    fn default() -> (r: Self)
        ensures
            r@ == Seq::<Seq<char>>::empty(),
            r.wf(),
    {
        Indexer::new()
    }
}

impl Indexer {
    /// The map field holds exactly the keys of the list, each at the position
    /// of its last occurrence.
    pub closed spec fn wf(&self) -> bool {
        self.key_to_index@ == index_map_of(self@)
    }

    pub fn new() -> (r: Self)
        ensures
            r@ == Seq::<Seq<char>>::empty(),
            r.wf(),
    {
        let r = Indexer { key_to_index: StringHashMap::new(), index_to_key: Vec::new() };
        proof {
            assert(r@ =~= Seq::<Seq<char>>::empty());
            assert(index_map_of(r@) =~= Map::<Seq<char>, usize>::empty());
        }
        r
    }

    /// The number of keys added so far.
    pub fn len(&self) -> (r: usize)
        ensures
            r == self@.len(),
    {
        self.index_to_key.len()
    }

    /// Appends `key` at the next position.
    pub fn add(&mut self, key: String)
        requires
            old(self).wf(),
        ensures
            final(self)@ == old(self)@.push(key@),
            final(self).wf(),
    {
        let index = self.index_to_key.len();
        self.key_to_index.insert(key.clone(), index);
        self.index_to_key.push(key);
        proof {
            assert(self@ =~= old(self)@.push(self.index_to_key@.last()@));
            assert(self@.drop_last() =~= old(self)@);
            assert(self.key_to_index@ =~= index_map_of(self@));
        }
    }

    /// Returns the key stored at `index`, or `None` when `index` is at or past
    /// the number of keys added.
    pub fn get_key(&self, index: usize) -> (r: Option<String>)
        ensures
            match r {
                Some(key) => index < self@.len() && key@ == self@[index as int],
                None => index >= self@.len(),
            },
    {
        if index < self.index_to_key.len() {
            Some(self.index_to_key[index].clone())
        } else {
            None
        }
    }
}

} // verus!
