//! Values that can be copied and compared field by field.

use crate::ordered_map::{in_order, MapKey, OrderedMap};
use crate::text::{same_text, TextOrder};
use vstd::prelude::*;

verus! {

/// A value that is determined by its view.
pub trait Record: View + Sized {
    /// A second value with the same view.
    fn copy(&self) -> (other: Self)
        ensures
            other@ == self@,
    ;

    /// Whether two values have the same view.
    fn same(&self, other: &Self) -> (same: bool)
        ensures
            same == (self@ == other@),
    ;
}

impl Record for String {
    fn copy(&self) -> String {
        self.clone()
    }

    fn same(&self, other: &String) -> bool {
        same_text(self.as_str(), other.as_str())
    }
}

/// The views of a sequence of values.
pub open spec fn views<T: View>(values: Seq<T>) -> Seq<T::V> {
    Seq::new(values.len(), |i: int| values[i]@)
}

/// The view of a value that may be absent.
pub open spec fn opt_view<T: View>(value: Option<T>) -> Option<T::V> {
    match value {
        Some(v) => Some(v@),
        None => None,
    }
}

/// The views of a list that may be absent.
pub open spec fn opt_views<T: View>(values: Option<Vec<T>>) -> Option<Seq<T::V>> {
    match values {
        Some(v) => Some(views(v@)),
        None => None,
    }
}

/// The views of the values of a map.
pub open spec fn map_views<M, T: View>(values: Map<M, T>) -> Map<M, T::V> {
    values.map_values(|v: T| v@)
}

/// Copies a list.
pub fn copy_all<T: Record>(values: &Vec<T>) -> (copies: Vec<T>)
    ensures
        views(copies@) == views(values@),
{
    let mut copies: Vec<T> = Vec::new();
    let mut i: usize = 0;
    while i < values.len()
        invariant
            i <= values@.len(),
            views(copies@) == views(values@.take(i as int)),
        decreases values@.len() - i,
    {
        copies.push(values[i].copy());
        i += 1;
        proof {
            let done = values@.take(i - 1);
            assert(views(values@.take(i as int)) =~= views(done).push(values@[i - 1]@));
            assert(views(copies@) =~= views(copies@.drop_last()).push(copies@.last()@));
            assert(copies@.drop_last() =~= copies@.take(i - 1));
        }
    }
    proof {
        assert(values@.take(i as int) =~= values@);
    }
    copies
}

/// Whether two lists hold the same values in the same order.
pub fn same_all<T: Record>(left: &Vec<T>, right: &Vec<T>) -> (same: bool)
    ensures
        same == (views(left@) == views(right@)),
{
    if left.len() != right.len() {
        proof {
            assert(views(left@).len() != views(right@).len());
        }
        return false;
    }
    let mut i: usize = 0;
    while i < left.len()
        invariant
            i <= left@.len(),
            left@.len() == right@.len(),
            forall|j: int| 0 <= j < i ==> (#[trigger] left@[j])@ == right@[j]@,
        decreases left@.len() - i,
    {
        if !left[i].same(&right[i]) {
            proof {
                assert(views(left@)[i as int] != views(right@)[i as int]);
            }
            return false;
        }
        i += 1;
    }
    proof {
        assert(views(left@) =~= views(right@));
    }
    true
}

/// Copies a value that may be absent.
pub fn copy_opt<T: Record>(value: &Option<T>) -> (copied: Option<T>)
    ensures
        opt_view(copied) == opt_view(*value),
{
    match value {
        Some(v) => Some(v.copy()),
        None => None,
    }
}

/// Whether two values that may be absent are the same.
pub fn same_opt<T: Record>(left: &Option<T>, right: &Option<T>) -> (same: bool)
    ensures
        same == (opt_view(*left) == opt_view(*right)),
{
    match (left, right) {
        (Some(l), Some(r)) => l.same(r),
        (None, None) => true,
        _ => false,
    }
}

/// Copies a list that may be absent.
pub fn copy_opt_all<T: Record>(values: &Option<Vec<T>>) -> (copies: Option<Vec<T>>)
    ensures
        opt_views(copies) == opt_views(*values),
{
    match values {
        Some(v) => Some(copy_all(v)),
        None => None,
    }
}

/// Whether two lists that may be absent are the same.
pub fn same_opt_all<T: Record>(left: &Option<Vec<T>>, right: &Option<Vec<T>>) -> (same: bool)
    ensures
        same == (opt_views(*left) == opt_views(*right)),
{
    match (left, right) {
        (Some(l), Some(r)) => same_all(l, r),
        (None, None) => true,
        _ => false,
    }
}

/// Copies a map.
pub fn copy_map<K: MapKey, V: Record>(map: &OrderedMap<K, V>) -> (copied: OrderedMap<K, V>)
    ensures
        map_views(copied@) == map_views(map@),
{
    let mut copied: OrderedMap<K, V> = OrderedMap::new();
    let n: usize = map.len();
    let mut i: usize = 0;
    proof {
        assert(map_views(copied@) =~= map_views(map@.restrict(map.order().take(0).to_set())));
    }
    while i < n
        invariant
            i <= n,
            n == map.order().len(),
            map.order().to_set() == map@.dom(),
            map_views(copied@) == map_views(map@.restrict(map.order().take(i as int).to_set())),
        decreases n - i,
    {
        let key = map.key_at(i);
        let value = map.value_at(i).copy();
        let ghost earlier = copied@;
        let ghost v = value;
        copied.insert(key.copy(), value);
        proof {
            let keys = map.order();
            let model = keys[i as int];
            assert(keys.take(i + 1) =~= keys.take(i as int).push(model));
            let before = keys.take(i as int).to_set();
            let after = keys.take(i + 1).to_set();
            assert(after =~= before.insert(model)) by {
                assert forall|k: K::V| after.contains(k) <==> before.insert(model).contains(k) by {
                    if before.contains(k) {
                        let j = keys.take(i as int).index_of(k);
                        assert(keys.take(i + 1)[j] == k);
                    }
                    if k == model {
                        assert(keys.take(i + 1)[i as int] == k);
                    }
                }
            }
            assert(map_views(copied@) =~= map_views(earlier).insert(model, v@));
            assert(map_views(map@.restrict(after)) =~= map_views(map@.restrict(before)).insert(
                model,
                map@[model]@,
            ));
        }
        i += 1;
    }
    proof {
        assert(map.order().take(n as int) =~= map.order());
        assert(map@.restrict(map@.dom()) =~= map@);
    }
    copied
}

/// Whether two maps hold the same values under the same keys.
pub fn same_map<K: MapKey, V: Record>(left: &OrderedMap<K, V>, right: &OrderedMap<K, V>) -> (same:
    bool)
    ensures
        same == (map_views(left@) == map_views(right@)),
{
    let n: usize = left.len();
    let m: usize = right.len();
    let ghost l = map_views(left@);
    let ghost r = map_views(right@);
    proof {
        assert(l.dom() =~= left@.dom());
        assert(r.dom() =~= right@.dom());
    }
    if n != m {
        return false;
    }
    let mut i: usize = 0;
    while i < n
        invariant
            i <= n,
            n == left.order().len(),
            n == right.order().len(),
            left.order() == in_order::<K>(left@.dom()),
            right.order() == in_order::<K>(right@.dom()),
            left.order().to_set() == left@.dom(),
            right.order().to_set() == right@.dom(),
            l == map_views(left@),
            r == map_views(right@),
            l.dom() == left@.dom(),
            r.dom() == right@.dom(),
            forall|j: int|
                0 <= j < i ==> (#[trigger] left.order()[j]) == right.order()[j] && l[left.order()[j]]
                    == r[right.order()[j]],
        decreases n - i,
    {
        let same_key = match left.key_at(i).place(right.key_at(i)) {
            TextOrder::Same => true,
            _ => false,
        };
        proof {
            K::lemma_total(left.order()[i as int], right.order()[i as int]);
        }
        if !same_key || !left.value_at(i).same(right.value_at(i)) {
            proof {
                if l == r {
                    assert(left.order() == right.order());
                    assert(l[left.order()[i as int]] == r[left.order()[i as int]]);
                }
            }
            return false;
        }
        i += 1;
    }
    proof {
        assert(left.order() =~= right.order());
        assert forall|k: K::V| l.dom().contains(k) implies l[k] == r[k] by {
            assert(left.order().to_set().contains(k));
            let j = left.order().index_of(k);
            assert(left.order()[j] == k);
        }
        assert(l =~= r);
    }
    true
}

/// Whether two numbers that may be absent are the same.
pub fn same_number(left: Option<i64>, right: Option<i64>) -> (same: bool)
    ensures
        same == (left == right),
{
    match (left, right) {
        (Some(l), Some(r)) => l == r,
        (None, None) => true,
        _ => false,
    }
}

/// Whether two flags that may be absent are the same.
pub fn same_flag(left: Option<bool>, right: Option<bool>) -> (same: bool)
    ensures
        same == (left == right),
{
    match (left, right) {
        (Some(l), Some(r)) => l == r,
        (None, None) => true,
        _ => false,
    }
}

/// Whether a value is in a list.
pub fn holds<T: Record>(values: &Vec<T>, value: &T) -> (found: bool)
    ensures
        found == views(values@).contains(value@),
{
    let mut i: usize = 0;
    while i < values.len()
        invariant
            i <= values@.len(),
            forall|j: int| 0 <= j < i ==> (#[trigger] values@[j])@ != value@,
        decreases values@.len() - i,
    {
        if values[i].same(value) {
            proof {
                assert(views(values@)[i as int] == value@);
            }
            return true;
        }
        i += 1;
    }
    proof {
        if views(values@).contains(value@) {
            let k = views(values@).index_of(value@);
            assert(values@[k]@ == value@);
        }
    }
    false
}

} // verus!
