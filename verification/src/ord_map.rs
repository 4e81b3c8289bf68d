//! A map kept as a vector of entries in increasing order of their keys, for keys that have a
//! proved order of their own.
use vstd::prelude::*;

verus! {

/// How one key stands to another.
pub enum KeyOrder {
    Less,
    Equal,
    Greater,
}

/// Keys with a strict total order on their views.
pub trait OrdKey: View + Sized {
    spec fn key_less(a: Self::V, b: Self::V) -> bool;

    /// The order is irreflexive, transitive and total.
    proof fn key_order(a: Self::V, b: Self::V, c: Self::V)
        ensures
            !Self::key_less(a, a),
            Self::key_less(a, b) && Self::key_less(b, c) ==> Self::key_less(a, c),
            a == b || Self::key_less(a, b) || Self::key_less(b, a),
    ;

    fn compare(&self, other: &Self) -> (order: KeyOrder)
        ensures
            match order {
                KeyOrder::Less => Self::key_less(self@, other@),
                KeyOrder::Equal => self@ == other@,
                KeyOrder::Greater => Self::key_less(other@, self@),
            },
    ;
}

/// The keys stand in strictly increasing order.
pub open spec fn increasing<K: OrdKey>(keys: Seq<K::V>) -> bool {
    forall|i: int, j: int|
        #![trigger keys[i], keys[j]]
        0 <= i < j < keys.len() ==> K::key_less(keys[i], keys[j])
}

/// The map from each key to the view of the value at the same place.
pub open spec fn zip_map<K, V: View>(keys: Seq<K>, values: Seq<V>) -> Map<K, V::V> {
    Map::new(|k: K| keys.contains(k), |k: K| values[keys.index_of(k)]@)
}

/// A map ordered by its keys.
pub struct OrdMap<K, V> {
    entries: Vec<(K, V)>,
}

impl<K: OrdKey, V: View> View for OrdMap<K, V> {
    type V = Map<K::V, V::V>;

    open spec fn view(&self) -> Map<K::V, V::V> {
        zip_map(self.keys(), self.values())
    }
}

impl<K: OrdKey, V: View> OrdMap<K, V> {
    /// The views of the keys, in order.
    pub closed spec fn keys(&self) -> Seq<K::V> {
        self.entries@.map_values(|e: (K, V)| e.0@)
    }

    /// The values, in the order of their keys.
    pub closed spec fn values(&self) -> Seq<V> {
        self.entries@.map_values(|e: (K, V)| e.1)
    }

    pub open spec fn wf(&self) -> bool {
        &&& self.keys().len() == self.values().len()
        &&& increasing::<K>(self.keys())
    }

    /// What the map says at the key in place `i` is the value in place `i`.
    pub proof fn lemma_at(&self, i: int)
        requires
            self.wf(),
            0 <= i < self.keys().len(),
        ensures
            self@.contains_key(self.keys()[i]),
            self@[self.keys()[i]] == self.values()[i]@,
    {
        lemma_index_of::<K>(self.keys(), i);
    }

    pub fn new() -> (map: Self)
        ensures
            map.wf(),
            map.keys() =~= Seq::<K::V>::empty(),
            map.values() =~= Seq::<V>::empty(),
            map@ =~= Map::<K::V, V::V>::empty(),
    {
        OrdMap { entries: Vec::new() }
    }

    pub fn len(&self) -> (n: usize)
        ensures
            n == self.keys().len(),
            n == self.values().len(),
    {
        self.entries.len()
    }

    pub fn key_at(&self, i: usize) -> (key: &K)
        requires
            i < self.keys().len(),
        ensures
            key@ == self.keys()[i as int],
    {
        &self.entries[i].0
    }

    pub fn value_at(&self, i: usize) -> (value: &V)
        requires
            i < self.values().len(),
        ensures
            *value == self.values()[i as int],
    {
        &self.entries[i].1
    }

    /// Where `key` is, or else where it would have to stand.
    pub fn find(&self, key: &K) -> (found: Result<usize, usize>)
        requires
            self.wf(),
        ensures
            match found {
                Ok(i) => i < self.keys().len() && self.keys()[i as int] == key@,
                Err(i) => {
                    &&& i <= self.keys().len()
                    &&& !self.keys().contains(key@)
                    &&& forall|j: int| 0 <= j < i ==> K::key_less(#[trigger] self.keys()[j], key@)
                    &&& forall|j: int|
                        i <= j < self.keys().len() ==> K::key_less(key@, #[trigger] self.keys()[j])
                },
            },
    {
        let mut lo: usize = 0;
        let mut hi: usize = self.entries.len();
        while lo < hi
            invariant
                self.wf(),
                lo <= hi <= self.entries@.len() == self.keys().len(),
                forall|j: int| 0 <= j < lo ==> K::key_less(#[trigger] self.keys()[j], key@),
                forall|j: int|
                    hi <= j < self.keys().len() ==> K::key_less(key@, #[trigger] self.keys()[j]),
            decreases hi - lo,
        {
            let mid: usize = lo + (hi - lo) / 2;
            assert(self.keys()[mid as int] == self.entries@[mid as int].0@);
            match key.compare(&self.entries[mid].0) {
                KeyOrder::Equal => {
                    return Ok(mid);
                },
                KeyOrder::Less => {
                    assert forall|j: int| mid <= j < self.keys().len() implies K::key_less(
                        key@,
                        #[trigger] self.keys()[j],
                    ) by {
                        K::key_order(key@, self.keys()[mid as int], self.keys()[j]);
                    }
                    hi = mid;
                },
                KeyOrder::Greater => {
                    assert forall|j: int| 0 <= j < mid + 1 implies K::key_less(
                        #[trigger] self.keys()[j],
                        key@,
                    ) by {
                        K::key_order(self.keys()[j], self.keys()[mid as int], key@);
                    }
                    lo = mid + 1;
                },
            }
        }
        proof {
            if self.keys().contains(key@) {
                let j = self.keys().index_of(key@);
                K::key_order(key@, key@, key@);
                assert(K::key_less(self.keys()[j], key@) || K::key_less(key@, self.keys()[j]));
            }
        }
        Err(lo)
    }

    /// The value at place `i`, to be changed in place.
    pub fn value_at_mut(&mut self, i: usize) -> (value: &mut V)
        requires
            old(self).wf(),
            i < old(self).keys().len(),
        ensures
            *value == old(self).values()[i as int],
            final(self).wf(),
            final(self).keys() == old(self).keys(),
            final(self).values() == old(self).values().update(i as int, *final(value)),
            final(self)@ == old(self)@.insert(old(self).keys()[i as int], final(value)@),
    {
        let ghost entries = self.entries@;
        let ghost keys = self.keys();
        let ghost values = self.values();
        assert forall|e: (K, V)| e.0 == entries[i as int].0 implies {
            let after = #[trigger] entries.update(i as int, e);
            &&& after.map_values(|e: (K, V)| e.0@) == keys
            &&& after.map_values(|e: (K, V)| e.1) == values.update(i as int, e.1)
            &&& zip_map(keys, values.update(i as int, e.1)) == zip_map(keys, values).insert(
                keys[i as int],
                e.1@,
            )
        } by {
            let after = entries.update(i as int, e);
            assert(after.map_values(|e: (K, V)| e.0@) =~= keys);
            assert(after.map_values(|e: (K, V)| e.1) =~= values.update(i as int, e.1));
            lemma_zip_map_update::<K, V>(keys, values, i as int, e.1);
        }
        let entry = &mut self.entries[i];
        &mut entry.1
    }

    /// Puts an entry at the place where [`OrdMap::find`] said that its key belongs.
    pub fn insert_at(&mut self, i: usize, key: K, value: V)
        requires
            old(self).wf(),
            i <= old(self).keys().len(),
            !old(self).keys().contains(key@),
            forall|j: int| 0 <= j < i ==> K::key_less(#[trigger] old(self).keys()[j], key@),
            forall|j: int|
                i <= j < old(self).keys().len() ==> K::key_less(
                    key@,
                    #[trigger] old(self).keys()[j],
                ),
        ensures
            final(self).wf(),
            final(self).keys() == old(self).keys().insert(i as int, key@),
            final(self).values() == old(self).values().insert(i as int, value),
            final(self)@ == old(self)@.insert(key@, value@),
    {
        let ghost before = *self;
        self.entries.insert(i, (key, value));
        proof {
            assert(self.keys() =~= before.keys().insert(i as int, key@));
            assert(self.values() =~= before.values().insert(i as int, value));
            lemma_zip_map_insert::<K, V>(before.keys(), before.values(), i as int, key@, value);
        }
    }

    /// Takes out the entry at place `i`.
    pub fn remove_at(&mut self, i: usize) -> (entry: (K, V))
        requires
            old(self).wf(),
            i < old(self).keys().len(),
        ensures
            entry.0@ == old(self).keys()[i as int],
            entry.1 == old(self).values()[i as int],
            final(self).wf(),
            final(self).keys() == old(self).keys().remove(i as int),
            final(self).values() == old(self).values().remove(i as int),
            final(self)@ == old(self)@.remove(old(self).keys()[i as int]),
    {
        let ghost before = *self;
        let entry = self.entries.remove(i);
        proof {
            assert(self.keys() =~= before.keys().remove(i as int));
            assert(self.values() =~= before.values().remove(i as int));
            lemma_zip_map_remove::<K, V>(before.keys(), before.values(), i as int);
        }
        entry
    }
}

/// In increasing order no key stands twice, so that a key's place is known by the key.
pub proof fn lemma_index_of<K: OrdKey>(keys: Seq<K::V>, i: int)
    requires
        increasing::<K>(keys),
        0 <= i < keys.len(),
    ensures
        keys.contains(keys[i]),
        keys.index_of(keys[i]) == i,
{
    let k = keys[i];
    let j = keys.index_of(k);
    K::key_order(k, k, k);
    assert(keys[j] == k);
    if j < i {
        assert(K::key_less(keys[j], keys[i]));
    } else if i < j {
        assert(K::key_less(keys[i], keys[j]));
    }
}

proof fn lemma_zip_map_update<K: OrdKey, V: View>(
    keys: Seq<K::V>,
    values: Seq<V>,
    i: int,
    value: V,
)
    requires
        increasing::<K>(keys),
        keys.len() == values.len(),
        0 <= i < keys.len(),
    ensures
        zip_map(keys, values.update(i, value)) == zip_map(keys, values).insert(keys[i], value@),
{
    lemma_index_of::<K>(keys, i);
    assert(zip_map(keys, values.update(i, value)) =~= zip_map(keys, values).insert(
        keys[i],
        value@,
    ));
}

proof fn lemma_zip_map_insert<K: OrdKey, V: View>(
    keys: Seq<K::V>,
    values: Seq<V>,
    i: int,
    key: K::V,
    value: V,
)
    requires
        increasing::<K>(keys),
        keys.len() == values.len(),
        0 <= i <= keys.len(),
        !keys.contains(key),
        forall|j: int| 0 <= j < i ==> K::key_less(#[trigger] keys[j], key),
        forall|j: int| i <= j < keys.len() ==> K::key_less(key, #[trigger] keys[j]),
    ensures
        increasing::<K>(keys.insert(i, key)),
        zip_map(keys.insert(i, key), values.insert(i, value)) == zip_map(keys, values).insert(
            key,
            value@,
        ),
{
    let new_keys = keys.insert(i, key);
    let new_values = values.insert(i, value);
    assert forall|a: int, b: int|
        #![trigger new_keys[a], new_keys[b]]
        0 <= a < b < new_keys.len() implies K::key_less(new_keys[a], new_keys[b]) by {
        let a0 = if a < i { a } else { a - 1 };
        let b0 = if b < i { b } else { b - 1 };
        if a != i && b != i {
            assert(new_keys[a] == keys[a0] && new_keys[b] == keys[b0]);
        } else if a == i {
            assert(new_keys[b] == keys[b0]);
        } else {
            assert(new_keys[a] == keys[a0]);
        }
    }
    let old_map = zip_map(keys, values);
    let new_map = zip_map(new_keys, new_values);
    let target = old_map.insert(key, value@);
    assert forall|k: K::V|
        #![trigger new_map.dom().contains(k)]
        #![trigger target.dom().contains(k)]
        new_map.dom().contains(k) == target.dom().contains(k) && (new_map.dom().contains(k)
            ==> new_map[k] == target[k]) by {
        if keys.contains(k) {
            let j = keys.index_of(k);
            let j1 = if j < i { j } else { j + 1 };
            lemma_index_of::<K>(keys, j);
            assert(new_keys[j1] == k);
            lemma_index_of::<K>(new_keys, j1);
        }
        assert(new_keys[i] == key);
        lemma_index_of::<K>(new_keys, i);
        if new_keys.contains(k) && k != key {
            let j = new_keys.index_of(k);
            let j0 = if j < i { j } else { j - 1 };
            assert(keys[j0] == k);
        }
    }
    assert(new_map =~= target);
}

proof fn lemma_zip_map_remove<K: OrdKey, V: View>(keys: Seq<K::V>, values: Seq<V>, i: int)
    requires
        increasing::<K>(keys),
        keys.len() == values.len(),
        0 <= i < keys.len(),
    ensures
        increasing::<K>(keys.remove(i)),
        zip_map(keys.remove(i), values.remove(i)) == zip_map(keys, values).remove(keys[i]),
{
    let new_keys = keys.remove(i);
    let new_values = values.remove(i);
    assert forall|a: int, b: int|
        #![trigger new_keys[a], new_keys[b]]
        0 <= a < b < new_keys.len() implies K::key_less(new_keys[a], new_keys[b]) by {
        let a1 = if a < i { a } else { a + 1 };
        let b1 = if b < i { b } else { b + 1 };
        assert(new_keys[a] == keys[a1] && new_keys[b] == keys[b1]);
    }
    let old_map = zip_map(keys, values);
    let new_map = zip_map(new_keys, new_values);
    lemma_index_of::<K>(keys, i);
    let target = old_map.remove(keys[i]);
    assert forall|k: K::V|
        #![trigger new_map.dom().contains(k)]
        #![trigger target.dom().contains(k)]
        new_map.dom().contains(k) == target.dom().contains(k) && (new_map.dom().contains(k)
            ==> new_map[k] == target[k]) by {
        if new_keys.contains(k) {
            let j = new_keys.index_of(k);
            let j1 = if j < i { j } else { j + 1 };
            lemma_index_of::<K>(new_keys, j);
            assert(keys[j1] == k);
            lemma_index_of::<K>(keys, j1);
        }
        if keys.contains(k) && k != keys[i] {
            let j = keys.index_of(k);
            let j0 = if j < i { j } else { j - 1 };
            assert(new_keys[j0] == k);
        }
    }
    assert(new_map =~= target);
}

} // verus!
