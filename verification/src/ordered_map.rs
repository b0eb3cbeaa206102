//! A map whose entries stand in the order of their keys.

use crate::record::{copy_map, map_views, Record};
use crate::text::{lemma_text_lt_total, lemma_text_lt_transitive, text_lt, text_order, TextOrder};
use vstd::prelude::*;

verus! {

/// A key with a total order. Two keys with the same view are the same key.
pub trait MapKey: Record {
    spec fn before(a: Self::V, b: Self::V) -> bool;

    proof fn lemma_total(a: Self::V, b: Self::V)
        ensures
            a == b || Self::before(a, b) || Self::before(b, a),
            !(Self::before(a, b) && Self::before(b, a)),
            Self::before(a, b) ==> a != b,
    ;

    proof fn lemma_transitive(a: Self::V, b: Self::V, c: Self::V)
        requires
            Self::before(a, b),
            Self::before(b, c),
        ensures
            Self::before(a, c),
    ;

    fn place(&self, other: &Self) -> (order: TextOrder)
        ensures
            match order {
                TextOrder::Before => Self::before(self@, other@),
                TextOrder::Same => self@ == other@,
                TextOrder::After => Self::before(other@, self@),
            },
    ;
}

impl MapKey for String {
    open spec fn before(a: Seq<char>, b: Seq<char>) -> bool {
        text_lt(a, b)
    }

    proof fn lemma_total(a: Seq<char>, b: Seq<char>) {
        lemma_text_lt_total(a, b);
    }

    proof fn lemma_transitive(a: Seq<char>, b: Seq<char>, c: Seq<char>) {
        lemma_text_lt_transitive(a, b, c);
    }

    fn place(&self, other: &String) -> TextOrder {
        text_order(self.as_str(), other.as_str())
    }
}

/// Every key stands before all that follow it.
pub open spec fn ascending<K: MapKey>(keys: Seq<K::V>) -> bool {
    forall|i: int, j: int| 0 <= i < j < keys.len() ==> K::before(#[trigger] keys[i], #[trigger] keys[j])
}

/// The keys of a finite set in ascending order.
pub open spec fn in_order<K: MapKey>(keys: Set<K::V>) -> Seq<K::V> {
    choose|s: Seq<K::V>| #[trigger] ascending::<K>(s) && s.to_set() == keys
}

/// Two ascending sequences with the same members are the same sequence.
pub proof fn lemma_ascending_unique<K: MapKey>(a: Seq<K::V>, b: Seq<K::V>)
    requires
        ascending::<K>(a),
        ascending::<K>(b),
        a.to_set() == b.to_set(),
    ensures
        a == b,
    decreases a.len(),
{
    if a.len() == 0 {
        if b.len() > 0 {
            assert(b.to_set().contains(b[0]));
            assert(a.to_set().contains(b[0]));
        }
        assert(a =~= b);
    } else {
        assert(a.to_set().contains(a[0]));
        assert(b.to_set().contains(a[0]));
        let j = b.index_of(a[0]);
        assert(b.to_set().contains(b[0]));
        assert(a.to_set().contains(b[0]));
        let i = a.index_of(b[0]);
        K::lemma_total(a[0], b[0]);
        assert(a[0] == b[0]) by {
            if i > 0 && j > 0 {
                assert(K::before(a[0], a[i]));
                assert(K::before(b[0], b[j]));
            }
        }
        let ta = a.drop_first();
        let tb = b.drop_first();
        assert forall|k: K::V| ta.to_set().contains(k) <==> tb.to_set().contains(k) by {
            if ta.contains(k) {
                let p = ta.index_of(k);
                assert(a[p + 1] == k);
                assert(a.to_set().contains(k));
                assert(b.to_set().contains(k));
                let q = b.index_of(k);
                K::lemma_total(a[0], a[p + 1]);
                assert(K::before(a[0], a[p + 1]));
                assert(q > 0);
                assert(tb[q - 1] == k);
            }
            if tb.contains(k) {
                let p = tb.index_of(k);
                assert(b[p + 1] == k);
                assert(b.to_set().contains(k));
                assert(a.to_set().contains(k));
                let q = a.index_of(k);
                K::lemma_total(b[0], b[p + 1]);
                assert(K::before(b[0], b[p + 1]));
                assert(q > 0);
                assert(ta[q - 1] == k);
            }
        }
        assert(ta.to_set() =~= tb.to_set());
        lemma_ascending_unique::<K>(ta, tb);
        assert(a =~= seq![a[0]] + ta);
        assert(b =~= seq![b[0]] + tb);
    }
}

/// An ascending sequence is the ordered sequence of its members.
pub proof fn lemma_in_order<K: MapKey>(s: Seq<K::V>)
    requires
        ascending::<K>(s),
    ensures
        in_order::<K>(s.to_set()) == s,
{
    lemma_ascending_unique::<K>(in_order::<K>(s.to_set()), s);
}

/// Where a key belongs in an ascending sequence that does not hold it.
proof fn lemma_insertion_point<K: MapKey>(keys: Seq<K::V>, key: K::V) -> (i: int)
    requires
        ascending::<K>(keys),
        !keys.contains(key),
    ensures
        0 <= i <= keys.len(),
        forall|j: int| 0 <= j < i ==> K::before(#[trigger] keys[j], key),
        forall|j: int| i <= j < keys.len() ==> K::before(key, #[trigger] keys[j]),
    decreases keys.len(),
{
    if keys.len() == 0 {
        0
    } else {
        let rest = keys.drop_last();
        let last = keys.len() - 1;
        assert(keys.contains(keys[last]));
        K::lemma_total(keys[last], key);
        assert forall|k: K::V| rest.contains(k) implies keys.contains(k) by {
            let j = rest.index_of(k);
            assert(keys[j] == k);
        }
        if K::before(keys[last], key) {
            assert forall|j: int| 0 <= j < keys.len() implies K::before(#[trigger] keys[j], key) by {
                if j < last {
                    assert(K::before(keys[j], keys[last]));
                    K::lemma_transitive(keys[j], keys[last], key);
                }
            }
            keys.len() as int
        } else {
            let i = lemma_insertion_point::<K>(rest, key);
            assert forall|j: int| 0 <= j < i implies K::before(#[trigger] keys[j], key) by {
                assert(keys[j] == rest[j]);
            }
            assert forall|j: int| i <= j < keys.len() implies K::before(key, #[trigger] keys[j]) by {
                if j < last {
                    assert(keys[j] == rest[j]);
                }
            }
            i
        }
    }
}

/// Every finite set of keys can be put in ascending order.
pub proof fn lemma_in_order_of_set<K: MapKey>(keys: Set<K::V>)
    requires
        keys.finite(),
    ensures
        ascending::<K>(in_order::<K>(keys)),
        in_order::<K>(keys).to_set() == keys,
    decreases keys.len(),
{
    if keys.len() == 0 {
        let none = Seq::<K::V>::empty();
        assert(none.to_set() =~= keys);
        assert(ascending::<K>(none));
    } else {
        let key = keys.choose();
        let rest = keys.remove(key);
        lemma_in_order_of_set::<K>(rest);
        let sorted = in_order::<K>(rest);
        if sorted.contains(key) {
            assert(sorted.to_set().contains(key));
        }
        let i = lemma_insertion_point::<K>(sorted, key);
        lemma_spliced::<K>(sorted, i, key);
        let all = sorted.insert(i, key);
        assert forall|k: K::V| all.to_set().contains(k) <==> keys.contains(k) by {
            if all.contains(k) {
                let j = all.index_of(k);
                if j < i {
                    assert(sorted[j] == k);
                    assert(sorted.to_set().contains(k));
                } else if j > i {
                    assert(sorted[j - 1] == k);
                    assert(sorted.to_set().contains(k));
                }
            }
            if keys.contains(k) {
                if k == key {
                    assert(all[i] == k);
                } else {
                    assert(sorted.to_set().contains(k));
                    let j = sorted.index_of(k);
                    if j < i {
                        assert(all[j] == k);
                    } else {
                        assert(all[j + 1] == k);
                    }
                }
            }
        }
        assert(all.to_set() =~= keys);
        assert(ascending::<K>(all));
    }
}

/// An ordered map. Its view is the finite map from key models to values.
#[verifier::reject_recursive_types(K)]
#[verifier::reject_recursive_types(V)]
#[derive(Debug, PartialEq, Eq)]
pub struct OrderedMap<K: MapKey, V> {
    entries: Vec<(K, V)>,
}

impl<K: MapKey, V> OrderedMap<K, V> {
    /// The keys, in ascending order.
    pub closed spec fn order(self) -> Seq<K::V> {
        Seq::new(self.entries@.len(), |i: int| self.entries@[i].0@)
    }

    #[verifier::type_invariant]
    closed spec fn inv(self) -> bool {
        ascending::<K>(self.order())
    }
}

impl<K: MapKey, V> View for OrderedMap<K, V> {
    type V = Map<K::V, V>;

    closed spec fn view(&self) -> Map<K::V, V> {
        Map::new(
            |k: K::V| self.order().contains(k),
            |k: K::V| self.entries@[self.order().index_of(k)].1,
        )
    }
}

impl<K: MapKey, V> OrderedMap<K, V> {
    /// The keys of the map, ascending, without repetition.
    proof fn lemma_keys(self)
        requires
            self.inv(),
        ensures
            self@.dom() == self.order().to_set(),
            self.order() == in_order::<K>(self@.dom()),
            self@.dom().finite(),
            self@.dom().len() == self.order().len(),
            forall|i: int|
                0 <= i < self.order().len() ==> self@.dom().contains(#[trigger] self.order()[i])
                    && self@[self.order()[i]] == self.entries@[i].1,
    {
        let keys = self.order();
        assert(self@.dom() =~= keys.to_set());
        lemma_in_order::<K>(keys);
        assert(keys.no_duplicates()) by {
            assert forall|i: int, j: int| 0 <= i < j < keys.len() implies keys[i] != keys[j] by {
                K::lemma_total(keys[i], keys[j]);
            }
        }
        keys.unique_seq_to_set();
        assert forall|i: int| 0 <= i < keys.len() implies self@.dom().contains(#[trigger] keys[i])
            && self@[keys[i]] == self.entries@[i].1 by {
            assert(keys.contains(keys[i]));
            assert(keys.index_of(keys[i]) == i);
        }
    }

    /// A map without entries.
    pub fn new() -> (map: OrderedMap<K, V>)
        ensures
            map@ == Map::<K::V, V>::empty(),
    {
        let map = OrderedMap { entries: Vec::new() };
        assert(map@ =~= Map::<K::V, V>::empty());
        map
    }

    /// How many entries the map has.
    pub fn len(&self) -> (n: usize)
        ensures
            n == self@.dom().len(),
            self@.dom().finite(),
            n == self.order().len(),
            self.order() == in_order::<K>(self@.dom()),
            ascending::<K>(self.order()),
            self.order().to_set() == self@.dom(),
    {
        proof {
            use_type_invariant(self);
            self.lemma_keys();
        }
        self.entries.len()
    }

    /// Whether the map has no entries.
    pub fn is_empty(&self) -> (empty: bool)
        ensures
            empty == (self@ == Map::<K::V, V>::empty()),
            empty == (self@.dom().len() == 0),
    {
        proof {
            use_type_invariant(self);
            self.lemma_keys();
            if self.entries@.len() == 0 {
                assert(self@ =~= Map::<K::V, V>::empty());
            } else {
                assert(self@.dom().contains(self.order()[0]));
            }
        }
        self.entries.len() == 0
    }

    /// The key at a place in ascending order.
    pub fn key_at(&self, index: usize) -> (key: &K)
        requires
            index < self.order().len(),
        ensures
            key@ == self.order()[index as int],
            self@.dom().contains(key@),
    {
        proof {
            use_type_invariant(self);
            self.lemma_keys();
            assert(self@.dom().contains(self.order()[index as int]));
        }
        &self.entries[index].0
    }

    /// The value at a place in ascending order of the keys.
    pub fn value_at(&self, index: usize) -> (value: &V)
        requires
            index < self.order().len(),
        ensures
            *value == self@[self.order()[index as int]],
            self@.dom().contains(self.order()[index as int]),
    {
        proof {
            use_type_invariant(self);
            self.lemma_keys();
            assert(self@.dom().contains(self.order()[index as int]));
        }
        &self.entries[index].1
    }

    /// Where a key stands, or where it would be put in.
    fn position(&self, key: &K) -> (found: (bool, usize))
        ensures
            found.1 <= self.entries@.len(),
            forall|j: int|
                0 <= j < found.1 ==> K::before(#[trigger] self.order()[j], key@),
            found.0 ==> found.1 < self.entries@.len() && self.order()[found.1 as int] == key@,
            !found.0 ==> forall|j: int|
                found.1 <= j < self.order().len() ==> K::before(
                    key@,
                    #[trigger] self.order()[j],
                ),
    {
        proof {
            use_type_invariant(self);
        }
        let mut i: usize = 0;
        while i < self.entries.len()
            invariant
                i <= self.entries@.len(),
                ascending::<K>(self.order()),
                forall|j: int| 0 <= j < i ==> K::before(#[trigger] self.order()[j], key@),
            decreases self.entries@.len() - i,
        {
            match self.entries[i].0.place(key) {
                TextOrder::Before => {},
                TextOrder::Same => {
                    return (true, i);
                },
                TextOrder::After => {
                    proof {
                        assert forall|j: int| i <= j < self.order().len() implies K::before(
                            key@,
                            #[trigger] self.order()[j],
                        ) by {
                            if j > i {
                                assert(K::before(self.order()[i as int], self.order()[j]));
                                K::lemma_transitive(
                                    key@,
                                    self.order()[i as int],
                                    self.order()[j],
                                );
                            }
                        }
                    }
                    return (false, i);
                },
            }
            i += 1;
        }
        (false, i)
    }

    /// The value of a key, if the key is there.
    pub fn get(&self, key: &K) -> (value: Option<&V>)
        ensures
            match value {
                Some(v) => self@.dom().contains(key@) && *v == self@[key@],
                None => !self@.dom().contains(key@),
            },
    {
        let (found, i) = self.position(key);
        proof {
            use_type_invariant(self);
            self.lemma_keys();
            if found {
                assert(self@.dom().contains(self.order()[i as int]));
            } else {
                self.lemma_absent(key@, i as int);
            }
        }
        if found {
            Some(&self.entries[i].1)
        } else {
            None
        }
    }

    proof fn lemma_absent(self, key: K::V, i: int)
        requires
            0 <= i <= self.order().len(),
            forall|j: int| 0 <= j < i ==> K::before(#[trigger] self.order()[j], key),
            forall|j: int| i <= j < self.order().len() ==> K::before(key, #[trigger] self.order()[j]),
        ensures
            !self.order().contains(key),
    {
        if self.order().contains(key) {
            let j = self.order().index_of(key);
            assert(self.order()[j] == key);
            K::lemma_total(key, key);
        }
    }

    /// Whether a key is there.
    pub fn contains_key(&self, key: &K) -> (found: bool)
        ensures
            found == self@.dom().contains(key@),
    {
        self.get(key).is_some()
    }

    /// Puts an entry in. What the key held before is handed back.
    pub fn insert(&mut self, key: K, value: V) -> (replaced: Option<V>)
        ensures
            final(self)@ == old(self)@.insert(key@, value),
            replaced == (if old(self)@.dom().contains(key@) {
                Some(old(self)@[key@])
            } else {
                None
            }),
    {
        let (found, i) = self.position(&key);
        let ghost earlier = *self;
        let ghost model = key@;
        proof {
            use_type_invariant(&*self);
            self.lemma_keys();
        }
        let mut entries: Vec<(K, V)> = Vec::new();
        std::mem::swap(&mut self.entries, &mut entries);
        if found {
            let (_, previous) = entries.remove(i);
            entries.insert(i, (key, value));
            proof {
                let next = OrderedMap { entries };
                assert(next.order() =~= earlier.order());
                next.lemma_keys();
                assert(earlier@.dom().contains(earlier.order()[i as int]));
                assert(next@ =~= earlier@.insert(model, value));
            }
            self.entries = entries;
            Some(previous)
        } else {
            entries.insert(i, (key, value));
            proof {
                let next = OrderedMap { entries };
                earlier.lemma_absent(model, i as int);
                lemma_spliced::<K>(earlier.order(), i as int, model);
                assert(next.order() =~= earlier.order().insert(i as int, model));
                next.lemma_keys();
                assert forall|k: K::V| next@.dom().contains(k) <==> earlier@.insert(model, value).dom().contains(k) by {
                    if earlier.order().contains(k) {
                        let j = earlier.order().index_of(k);
                        if j < i {
                            assert(next.order()[j] == k);
                        } else {
                            assert(next.order()[j + 1] == k);
                        }
                    }
                    if k == model {
                        assert(next.order()[i as int] == k);
                    }
                    if next.order().contains(k) && k != model {
                        let j = next.order().index_of(k);
                        if j < i {
                            assert(earlier.order()[j] == k);
                        } else {
                            assert(earlier.order()[j - 1] == k);
                        }
                    }
                }
                assert forall|k: K::V| #[trigger] next@.dom().contains(k) implies next@[k] == earlier@.insert(model, value)[k] by {
                    let j = next.order().index_of(k);
                    assert(next@[next.order()[j]] == next.entries@[j].1);
                    if j < i {
                        assert(earlier.order()[j] == k);
                        assert(earlier@[earlier.order()[j]] == earlier.entries@[j].1);
                    } else if j > i {
                        assert(earlier.order()[j - 1] == k);
                        assert(earlier@[earlier.order()[j - 1]] == earlier.entries@[j - 1].1);
                    }
                }
                assert(next@ =~= earlier@.insert(model, value));
            }
            self.entries = entries;
            None
        }
    }

    /// Takes an entry out. What the key held is handed back.
    pub fn remove(&mut self, key: &K) -> (removed: Option<V>)
        ensures
            final(self)@ == old(self)@.remove(key@),
            removed == (if old(self)@.dom().contains(key@) {
                Some(old(self)@[key@])
            } else {
                None
            }),
    {
        let (found, i) = self.position(key);
        let ghost earlier = *self;
        let ghost model = key@;
        proof {
            use_type_invariant(&*self);
            self.lemma_keys();
        }
        if !found {
            proof {
                earlier.lemma_absent(model, i as int);
                assert(self@ =~= earlier@.remove(model));
            }
            return None;
        }
        let mut entries: Vec<(K, V)> = Vec::new();
        std::mem::swap(&mut self.entries, &mut entries);
        let (_, previous) = entries.remove(i);
        proof {
            let next = OrderedMap { entries };
            assert(next.order() =~= earlier.order().remove(i as int));
            assert forall|a: int, b: int| 0 <= a < b < next.order().len() implies K::before(
                #[trigger] next.order()[a],
                #[trigger] next.order()[b],
            ) by {
                let x = if a < i { a } else { a + 1 };
                let y = if b < i { b } else { b + 1 };
                assert(K::before(earlier.order()[x], earlier.order()[y]));
            }
            next.lemma_keys();
            assert(earlier@.dom().contains(earlier.order()[i as int]));
            assert forall|k: K::V| next@.dom().contains(k) <==> earlier@.remove(model).dom().contains(k) by {
                if next.order().contains(k) {
                    let j = next.order().index_of(k);
                    let x = if j < i { j } else { j + 1 };
                    assert(earlier.order()[x] == k);
                    K::lemma_total(earlier.order()[x], earlier.order()[i as int]);
                    if x < i {
                        assert(K::before(earlier.order()[x], earlier.order()[i as int]));
                    } else {
                        assert(K::before(earlier.order()[i as int], earlier.order()[x]));
                    }
                }
                if earlier.order().contains(k) && k != model {
                    let j = earlier.order().index_of(k);
                    let x = if j < i { j } else { j - 1 };
                    assert(next.order()[x] == k);
                }
            }
            assert forall|k: K::V| #[trigger] next@.dom().contains(k) implies next@[k] == earlier@.remove(model)[k] by {
                let j = next.order().index_of(k);
                assert(next@[next.order()[j]] == next.entries@[j].1);
                let x = if j < i { j } else { j + 1 };
                assert(earlier.order()[x] == k);
                assert(earlier@[earlier.order()[x]] == earlier.entries@[x].1);
            }
            assert(next@ =~= earlier@.remove(model));
        }
        self.entries = entries;
        Some(previous)
    }
}

impl<K: MapKey, V: Record> Clone for OrderedMap<K, V> {
    fn clone(&self) -> (map: OrderedMap<K, V>)
        ensures
            map_views(map@) == map_views(self@),
    {
        copy_map(self)
    }
}

proof fn lemma_spliced<K: MapKey>(keys: Seq<K::V>, i: int, key: K::V)
    requires
        ascending::<K>(keys),
        0 <= i <= keys.len(),
        forall|j: int| 0 <= j < i ==> K::before(#[trigger] keys[j], key),
        forall|j: int| i <= j < keys.len() ==> K::before(key, #[trigger] keys[j]),
    ensures
        ascending::<K>(keys.insert(i, key)),
{
    let spliced = keys.insert(i, key);
    assert forall|a: int, b: int| 0 <= a < b < spliced.len() implies K::before(
        #[trigger] spliced[a],
        #[trigger] spliced[b],
    ) by {
        if a != i && b != i {
            let x = if a < i { a } else { a - 1 };
            let y = if b < i { b } else { b - 1 };
            assert(K::before(keys[x], keys[y]));
        } else if a == i {
            assert(spliced[b] == keys[b - 1]);
        } else {
            assert(spliced[a] == keys[a]);
        }
    }
}

} // verus!
