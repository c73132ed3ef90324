use std::cmp::Ordering;
use std::collections::HashMap;
use std::hash::Hash;
use std::ops::{Add, Sub};
use vstd::multiset::Multiset;
use vstd::prelude::*;
use vstd::std_specs::cmp::{PartialEqSpec, PartialOrdSpec};
use vstd::std_specs::hash::{obeys_key_model, spec_hash_map_iter};
use vstd::std_specs::iter::IteratorSpec;

verus! {

/// A finite collection that records how often each element occurs. Its view
/// is the mathematical multiset of its elements; counts are kept as `i32`.
#[derive(Debug)]
pub struct MultiSet<T> {
    map: HashMap<T, i32>,
}

/// The multiplicities that a table of stored counts stands for: an entry
/// contributes its count when that is positive, and nothing otherwise.
spec fn stored_counts<T>(m: Map<T, i32>) -> Map<T, nat> {
    Map::new(|k: T| m.contains_key(k), |k: T| if m[k] > 0 { m[k] as nat } else { 0nat })
}

impl<T> View for MultiSet<T> {
    type V = Multiset<T>;

    closed spec fn view(&self) -> Multiset<T> {
        Multiset::from_map(stored_counts(self.map@))
    }
}

impl<T> MultiSet<T> {
    /// Keys behave as the table expects of them, and no entry is stored with
    /// a count of zero or less.
    #[verifier::type_invariant]
    spec fn inv(&self) -> bool {
        &&& obeys_key_model::<T>()
        &&& forall|k: T| #[trigger] self.map@.contains_key(k) ==> self.map@[k] > 0
    }

    /// The empty multiset. The element type has to hash and compare the way
    /// a hash table expects of its keys, which holds of the integer types.
    pub fn new() -> (s: MultiSet<T>)
        requires
            obeys_key_model::<T>(),
        ensures
            s@ == Multiset::<T>::empty(),
    {
        let s = MultiSet { map: HashMap::new() };
        proof {
            assert(stored_counts(s.map@).dom() =~= Set::<T>::empty());
            assert(s@ =~= Multiset::<T>::empty());
        }
        s
    }
}

/// Whether `entries` lists the pairs of `table`, each of them once.
spec fn lists_table<T>(entries: Seq<(T, i32)>, table: Map<T, i32>) -> bool {
    &&& forall|i: int|
        0 <= i < entries.len() ==> table.contains_key((#[trigger] entries[i]).0) && table[entries[i].0]
            == entries[i].1
    &&& forall|k: T| #[trigger]
        table.contains_key(k) ==> exists|i: int| 0 <= i < entries.len() && (#[trigger] entries[i]).0 == k
    &&& forall|i: int, j: int|
        0 <= i < j < entries.len() ==> (#[trigger] entries[i]).0 != (#[trigger] entries[j]).0
}

/// Moves the pairs out of a table with `Vec::from_iter`, which walks the map's
/// consuming iterator. That iterator yields every key with its value exactly
/// once, in an order that is left open; so the contract fixes which pairs
/// come out and says nothing of their order.
#[verifier::external_body]
fn into_entries<T>(table: HashMap<T, i32>) -> (entries: Vec<(T, i32)>)
    ensures
        obeys_key_model::<T>() ==> lists_table(entries@, table@),
{
    Vec::from_iter(table)
}

/// Whether `r` is the way a count of `n` is handed out: `None` for an element
/// that does not occur, the count itself otherwise.
pub open spec fn reports(r: Option<i32>, n: nat) -> bool {
    match r {
        Some(c) => c > 0 && c == n,
        None => n == 0,
    }
}

/// A count moved by a signed amount, and held at zero from below.
pub open spec fn shifted(n: nat, by: int) -> nat {
    if n + by > 0 {
        (n + by) as nat
    } else {
        0nat
    }
}

impl<T: Eq + Hash> MultiSet<T> {
    /// The stored table holds exactly the positive counts of the view.
    proof fn lemma_counts(&self)
        requires
            self.inv(),
        ensures
            forall|k: T| #[trigger]
                self.map@.contains_key(k) ==> self@.count(k) == self.map@[k] && self.map@[k] > 0,
            forall|k: T| !(#[trigger] self.map@.contains_key(k)) ==> self@.count(k) == 0,
            forall|k: T| #[trigger] self@.count(k) <= i32::MAX,
    {
        assert(stored_counts(self.map@).dom() =~= self.map@.dom());
        assert forall|k: T| #[trigger] self@.count(k) <= i32::MAX by {
            if self.map@.contains_key(k) {
            }
        }
    }

    /// Adds one occurrence of `item` and hands back the count it had
    /// before.
    pub fn insert(&mut self, item: T) -> (r: Option<i32>)
        requires
            old(self)@.count(item) < i32::MAX,
        ensures
            final(self)@ == old(self)@.insert(item),
            reports(r, old(self)@.count(item)),
    {
        let r = self.repeat_insert(item, 1);
        proof {
            broadcast use vstd::multiset::group_multiset_properties;

            assert(self@ =~= old(self)@.insert(item));
        }
        r
    }

    /// Moves the count of `item` by `count`, which may be negative, and
    /// hands back the count it had before. A count that would fall to zero
    /// or below removes the element.
    pub fn repeat_insert(&mut self, item: T, count: i32) -> (r: Option<i32>)
        requires
            old(self)@.count(item) + count <= i32::MAX,
        ensures
            final(self)@ == old(self)@.update(item, shifted(old(self)@.count(item), count as int)),
            final(self)@.count(item) == shifted(old(self)@.count(item), count as int),
            forall|e: T| e != item ==> final(self)@.count(e) == old(self)@.count(e),
            reports(r, old(self)@.count(item)),
    {
        proof {
            use_type_invariant(&*self);
            self.lemma_counts();
        }
        let prev = self.get(&item);
        let new_count: i32 = match prev {
            Some(c) => c + count,
            None => count,
        };
        let mut map = HashMap::new();
        std::mem::swap(&mut map, &mut self.map);
        let r = if new_count > 0 {
            map.insert(item, new_count)
        } else {
            map.remove(&item)
        };
        self.map = map;
        proof {
            broadcast use vstd::multiset::group_multiset_properties;

            self.lemma_counts();
            let target = old(self)@.update(item, shifted(old(self)@.count(item), count as int));
            assert forall|k: T| self@.count(k) == target.count(k) by {
                if k == item {
                    assert(self.map@.contains_key(k) <==> new_count > 0);
                } else {
                    assert(self.map@.contains_key(k) <==> old(self).map@.contains_key(k));
                }
            }
            assert(self@ =~= target);
        }
        r
    }

    /// Takes away one occurrence of `item`, if there is one, and hands back
    /// the count it had before.
    pub fn remove(&mut self, item: T) -> (r: Option<i32>)
        ensures
            final(self)@ == old(self)@.remove(item),
            reports(r, old(self)@.count(item)),
    {
        proof {
            use_type_invariant(&*self);
            self.lemma_counts();
        }
        let r = self.repeat_remove(item, 1);
        proof {
            broadcast use vstd::multiset::group_multiset_properties;

            assert(self@ =~= old(self)@.remove(item));
        }
        r
    }

    /// Lowers the count of an element that occurs by `count`, removing it
    /// where nothing would be left, and hands back the count it had before.
    /// An element that does not occur is left alone.
    pub fn repeat_remove(&mut self, item: T, count: i32) -> (r: Option<i32>)
        requires
            old(self)@.count(item) > 0 ==> old(self)@.count(item) - count <= i32::MAX,
        ensures
            final(self)@ == if old(self)@.count(item) > 0 {
                old(self)@.update(item, shifted(old(self)@.count(item), -count))
            } else {
                old(self)@
            },
            final(self)@.count(item) == if old(self)@.count(item) > 0 {
                shifted(old(self)@.count(item), -count)
            } else {
                0
            },
            forall|e: T| e != item ==> final(self)@.count(e) == old(self)@.count(e),
            reports(r, old(self)@.count(item)),
    {
        proof {
            use_type_invariant(&*self);
            self.lemma_counts();
        }
        let current_count = self.get(&item);
        let ghost target = if old(self)@.count(item) > 0 {
            old(self)@.update(item, shifted(old(self)@.count(item), -count))
        } else {
            old(self)@
        };
        match current_count {
            None => None,
            Some(value) => {
                let mut map = HashMap::new();
                std::mem::swap(&mut map, &mut self.map);
                let r = if count >= value {
                    map.remove(&item)
                } else {
                    map.insert(item, value - count)
                };
                self.map = map;
                proof {
                    broadcast use vstd::multiset::group_multiset_properties;

                    self.lemma_counts();
                    assert forall|k: T| self@.count(k) == target.count(k) by {
                        if k == item {
                            assert(self.map@.contains_key(k) <==> count < value);
                        } else {
                            assert(self.map@.contains_key(k) <==> old(self).map@.contains_key(k));
                        }
                    }
                    assert(self@ =~= target);
                }
                r
            },
        }
    }

    /// Whether every element occurs in `other` at least as often as here.
    pub fn contained_in(&self, other: &MultiSet<T>) -> (r: bool)
        ensures
            r == self@.subset_of(other@),
    {
        proof {
            use_type_invariant(self);
            use_type_invariant(other);
            self.lemma_counts();
            other.lemma_counts();
        }
        if self.map.len() > other.map.len() {
            proof {
                if self@.subset_of(other@) {
                    assert forall|k: T| self.map@.dom().contains(k) implies other.map@.dom().contains(
                        k,
                    ) by {
                        assert(self@.count(k) <= other@.count(k));
                    }
                    assert(self.map@.dom().subset_of(other.map@.dom()));
                    vstd::set_lib::lemma_len_subset(self.map@.dom(), other.map@.dom());
                }
            }
            return false;
        }
        let ghost entries = spec_hash_map_iter(&self.map).remaining();
        let ghost mut seen: int = 0;
        for pair in iter: self.map.iter()
            invariant
                self.inv(),
                other.inv(),
                iter.seq() == entries,
                seen == iter.index(),
                forall|i: int|
                    0 <= i < seen ==> self@.count(*(#[trigger] entries[i]).0) <= other@.count(
                        *entries[i].0,
                    ),
        {
            let (key, value) = pair;
            proof {
                seen = seen + 1;
                self.lemma_counts();
                other.lemma_counts();
                assert(self.map@.contains_key(*key) && self.map@[*key] == *value);
            }
            match other.get(key) {
                None => {
                    return false;
                },
                Some(other_value) => {
                    if *value > other_value {
                        return false;
                    }
                },
            }
        }
        proof {
            self.lemma_counts();
            other.lemma_counts();
            assert(seen == entries.len());
            assert forall|k: T| self@.count(k) <= other@.count(k) by {
                if self.map@.contains_key(k) {
                    assert(entries.contains((&k, &self.map@[k])));
                    let i = choose|i: int|
                        0 <= i < entries.len() && entries[i] == (&k, &self.map@[k]);
                    assert(*entries[i].0 == k);
                }
            }
        }
        true
    }

    /// The count of `item`, or `None` where it does not occur.
    pub fn get(&self, item: &T) -> (r: Option<i32>)
        ensures
            reports(r, self@.count(*item)),
    {
        proof {
            use_type_invariant(self);
            assert(stored_counts(self.map@).dom() =~= self.map@.dom());
        }
        match self.map.get(item) {
            Some(value) => Some(*value),
            None => None,
        }
    }
}

impl<T: Eq + Hash> PartialEq for MultiSet<T> {
    /// Two multisets are equal when they hold the same elements with the
    /// same counts.
    fn eq(&self, other: &MultiSet<T>) -> (r: bool) {
        proof {
            use_type_invariant(self);
            use_type_invariant(other);
            self.lemma_counts();
            other.lemma_counts();
        }
        if self.map.len() != other.map.len() {
            proof {
                if self@ == other@ {
                    assert forall|k: T| self.map@.dom().contains(k) <==> other.map@.dom().contains(
                        k,
                    ) by {
                        assert(self@.count(k) == other@.count(k));
                    }
                    assert(self.map@.dom() =~= other.map@.dom());
                }
            }
            return false;
        }
        let ghost entries = spec_hash_map_iter(&self.map).remaining();
        let ghost mut seen: int = 0;
        for pair in iter: self.map.iter()
            invariant
                self.inv(),
                other.inv(),
                iter.seq() == entries,
                seen == iter.index(),
                forall|i: int|
                    0 <= i < seen ==> self@.count(*(#[trigger] entries[i]).0) == other@.count(
                        *entries[i].0,
                    ),
        {
            let (key, value) = pair;
            proof {
                seen = seen + 1;
                self.lemma_counts();
                other.lemma_counts();
                assert(self.map@.contains_key(*key) && self.map@[*key] == *value);
            }
            match other.get(key) {
                None => {
                    return false;
                },
                Some(other_value) => {
                    if *value != other_value {
                        return false;
                    }
                },
            }
        }
        proof {
            self.lemma_counts();
            other.lemma_counts();
            assert(seen == entries.len());
            assert forall|k: T| self.map@.dom().contains(k) implies other.map@.dom().contains(
                k,
            ) && self@.count(k) == other@.count(k) by {
                assert(entries.contains((&k, &self.map@[k])));
                let i = choose|i: int| 0 <= i < entries.len() && entries[i] == (&k, &self.map@[k]);
                assert(*entries[i].0 == k);
            }
            assert(self.map@.dom().subset_of(other.map@.dom()));
            vstd::set_lib::lemma_subset_equality(self.map@.dom(), other.map@.dom());
            assert(self@ =~= other@);
        }
        true
    }
}

impl<T: Eq + Hash> vstd::std_specs::cmp::PartialEqSpecImpl for MultiSet<T> {
    open spec fn obeys_eq_spec() -> bool {
        true
    }

    open spec fn eq_spec(&self, other: &MultiSet<T>) -> bool {
        self@ == other@
    }
}

impl<T: Eq + Hash> Add for MultiSet<T> {
    type Output = Self;

    /// Sums the counts of the two operands, element by element.
    fn add(self, other: Self) -> (sum: Self)
        ensures
            sum@ == self@.add(other@),
    {
        proof {
            use_type_invariant(&self);
            use_type_invariant(&other);
        }
        let mut sum: MultiSet<T> = MultiSet::new();
        sum.absorb(other);
        sum.absorb(self);
        proof {
            assert(sum@ =~= self@.add(other@));
        }
        sum
    }
}

/// A sum is fixed by its view alone, not as a value of the type: `add_spec`
/// names some multiset with that view, `obeys_add_spec` does not hold, and
/// callers go by the `ensures` of `add`. No count may leave the range of
/// `i32`.
impl<T: Eq + Hash> vstd::std_specs::ops::AddSpecImpl for MultiSet<T> {
    open spec fn obeys_add_spec() -> bool {
        false
    }

    open spec fn add_req(self, other: Self) -> bool {
        forall|e: T| self@.count(e) + other@.count(e) <= i32::MAX
    }

    open spec fn add_spec(self, other: Self) -> Self {
        choose|sum: Self| sum@ == self@.add(other@)
    }
}

impl<T: Eq + Hash> MultiSet<T> {
    /// Adds every occurrence in `other` to `self`.
    fn absorb(&mut self, other: MultiSet<T>)
        requires
            forall|e: T| old(self)@.count(e) + other@.count(e) <= i32::MAX,
        ensures
            final(self)@ == old(self)@.add(other@),
    {
        broadcast use vstd::multiset::group_multiset_properties;

        proof {
            use_type_invariant(&*self);
            use_type_invariant(&other);
            other.lemma_counts();
        }
        let mut entries = into_entries(other.map);
        let ghost all = entries@;
        while entries.len() > 0
            invariant
                lists_table(all, other.map@),
                entries.len() <= all.len(),
                entries@ =~= all.take(entries.len() as int),
                forall|e: T| old(self)@.count(e) + other@.count(e) <= i32::MAX,
                forall|k: T| #[trigger]
                    other.map@.contains_key(k) ==> other@.count(k) == other.map@[k] && other.map@[k]
                        > 0,
                forall|k: T| !(#[trigger] other.map@.contains_key(k)) ==> other@.count(k) == 0,
                forall|e: T|
                    self@.count(e) == old(self)@.count(e) + if #[trigger] keyed_from(
                        all,
                        entries.len() as int,
                        e,
                    ) {
                        other@.count(e)
                    } else {
                        0
                    },
            decreases entries.len(),
        {
            let ghost before = self@;
            let ghost n = entries.len() - 1;
            let (key, value) = entries.pop().unwrap();
            assert(all[n] == (key, value));
            proof {
                if keyed_from(all, n + 1, key) {
                    let i = choose|i: int| n + 1 <= i < all.len() && (#[trigger] all[i]).0 == key;
                    assert(all[n].0 != all[i].0);
                }
            }
            self.repeat_insert(key, value);
            proof {
                broadcast use vstd::multiset::group_multiset_properties;

                assert forall|e: T|
                    self@.count(e) == old(self)@.count(e) + if #[trigger] keyed_from(all, n, e) {
                        other@.count(e)
                    } else {
                        0
                    } by {
                    if e == key {
                        assert(all[n].0 == e);
                    } else {
                        if keyed_from(all, n, e) {
                            let i = choose|i: int| n <= i < all.len() && (#[trigger] all[i]).0 == e;
                            assert(n + 1 <= i < all.len() && all[i].0 == e);
                        }
                        assert(keyed_from(all, n, e) == keyed_from(all, n + 1, e));
                    }
                }
            }
        }
        proof {
            assert forall|e: T| self@.count(e) == old(self)@.count(e) + other@.count(e) by {
                if other.map@.contains_key(e) {
                    let i = choose|i: int| 0 <= i < all.len() && (#[trigger] all[i]).0 == e;
                    assert(0 <= i < all.len() && all[i].0 == e);
                    assert(keyed_from(all, 0, e));
                } else {
                    if keyed_from(all, 0, e) {
                        let i = choose|i: int| 0 <= i < all.len() && (#[trigger] all[i]).0 == e;
                        assert(other.map@.contains_key(all[i].0));
                    }
                }
            }
            assert(self@ =~= old(self)@.add(other@));
        }
    }
}

impl<T: Eq + Hash> Sub for MultiSet<T> {
    type Output = Self;

    /// Takes the counts of `other` from those of `self`, element by element,
    /// stopping at zero.
    fn sub(self, other: Self) -> (difference: Self)
        ensures
            difference@ == self@.sub(other@),
    {
        proof {
            use_type_invariant(&self);
            use_type_invariant(&other);
            self.lemma_counts();
        }
        let mut difference: MultiSet<T> = MultiSet::new();
        let mut entries = into_entries(self.map);
        let ghost all = entries@;
        while entries.len() > 0
            invariant
                lists_table(all, self.map@),
                entries.len() <= all.len(),
                entries@ =~= all.take(entries.len() as int),
                forall|k: T| #[trigger]
                    self.map@.contains_key(k) ==> self@.count(k) == self.map@[k] && self.map@[k] > 0,
                forall|k: T| !(#[trigger] self.map@.contains_key(k)) ==> self@.count(k) == 0,
                forall|e: T|
                    difference@.count(e) == if #[trigger] keyed_from(all, entries.len() as int, e) {
                        self@.sub(other@).count(e)
                    } else {
                        0
                    },
            decreases entries.len(),
        {
            let ghost before = difference@;
            let ghost n = entries.len() - 1;
            let (key, value) = entries.pop().unwrap();
            assert(all[n] == (key, value));
            proof {
                if keyed_from(all, n + 1, key) {
                    let i = choose|i: int| n + 1 <= i < all.len() && (#[trigger] all[i]).0 == key;
                    assert(all[n].0 != all[i].0);
                }
                assert(self.map@.contains_key(key) && self.map@[key] == value);
            }
            let taken: i32 = match other.get(&key) {
                Some(c) => c,
                None => 0,
            };
            let new_value: i32 = value - taken;
            if new_value > 0 {
                difference.repeat_insert(key, new_value);
            }
            proof {
                broadcast use vstd::multiset::group_multiset_properties;

                assert forall|e: T|
                    difference@.count(e) == if #[trigger] keyed_from(all, n, e) {
                        self@.sub(other@).count(e)
                    } else {
                        0
                    } by {
                    if e == key {
                        assert(all[n].0 == e);
                    } else {
                        if keyed_from(all, n, e) {
                            let i = choose|i: int| n <= i < all.len() && (#[trigger] all[i]).0 == e;
                            assert(n + 1 <= i < all.len() && all[i].0 == e);
                        }
                        assert(keyed_from(all, n, e) == keyed_from(all, n + 1, e));
                    }
                }
            }
        }
        proof {
            assert forall|e: T| difference@.count(e) == self@.sub(other@).count(e) by {
                if self.map@.contains_key(e) {
                    let i = choose|i: int| 0 <= i < all.len() && (#[trigger] all[i]).0 == e;
                    assert(0 <= i < all.len() && all[i].0 == e);
                    assert(keyed_from(all, 0, e));
                } else {
                    if keyed_from(all, 0, e) {
                        let i = choose|i: int| 0 <= i < all.len() && (#[trigger] all[i]).0 == e;
                        assert(self.map@.contains_key(all[i].0));
                    }
                }
            }
            assert(difference@ =~= self@.sub(other@));
        }
        difference
    }
}

/// A difference is fixed by its view alone, as a sum is: callers go by the
/// `ensures` of `sub`, which asks nothing of its operands.
impl<T: Eq + Hash> vstd::std_specs::ops::SubSpecImpl for MultiSet<T> {
    open spec fn obeys_sub_spec() -> bool {
        false
    }

    open spec fn sub_req(self, other: Self) -> bool {
        true
    }

    open spec fn sub_spec(self, other: Self) -> Self {
        choose|difference: Self| difference@ == self@.sub(other@)
    }
}

impl<T: Eq + Hash + Clone> Clone for MultiSet<T> {
    /// A multiset with the same elements and counts.
    fn clone(&self) -> (copy: Self)
        ensures
            copy@ == self@,
    {
        proof {
            use_type_invariant(self);
        }
        MultiSet { map: self.map.clone() }
    }
}

impl<T: Eq + Hash> MultiSet<T> {
    /// The multiset of the items of a vector: each item counts once for
    /// every place at which it stands. No item may stand there more often
    /// than an `i32` can count, which holds of every vector of at most
    /// `i32::MAX` items.
    pub fn from_vec(items: Vec<T>) -> (collected: MultiSet<T>)
        requires
            obeys_key_model::<T>(),
            items.len() <= i32::MAX || forall|e: T| items@.to_multiset().count(e) <= i32::MAX,
        ensures
            collected@ == items@.to_multiset(),
    {
        let mut items = items;
        let ghost all = items@;
        let mut collected: MultiSet<T> = MultiSet::new();
        proof {
            all.to_multiset_ensures();
            let none = all.skip(all.len() as int);
            none.to_multiset_ensures();
            vstd::multiset::lemma_multiset_empty_len(none.to_multiset());
        }
        while items.len() > 0
            invariant
                forall|e: T| all.to_multiset().count(e) <= i32::MAX,
                items.len() <= all.len(),
                items@ =~= all.take(items.len() as int),
                collected@ =~= all.skip(items.len() as int).to_multiset(),
            decreases items.len(),
        {
            let ghost n = items.len() - 1;
            let item = items.pop().unwrap();
            proof {
                let rest = all.skip(n + 1);
                let tail = all.skip(n);
                assert(all[n] == item);
                assert(tail =~= seq![item] + rest);
                vstd::seq_lib::lemma_multiset_commutative(seq![item], rest);
                seq![item].to_multiset_ensures();
                rest.to_multiset_ensures();
                assert(seq![item].to_multiset() =~= Multiset::singleton(item)) by {
                    assert(seq![item] =~= Seq::<T>::empty().push(item));
                    Seq::<T>::empty().to_multiset_ensures();
                }
                let head = all.take(n);
                assert(all =~= head + tail);
                vstd::seq_lib::lemma_multiset_commutative(head, tail);
                assert(all.to_multiset().count(item) <= i32::MAX);
                assert(rest.to_multiset().count(item) < all.to_multiset().count(item));
            }
            collected.insert(item);
            proof {
                assert(collected@ =~= all.skip(n).to_multiset());
            }
        }
        proof {
            assert(all.skip(0) =~= all);
        }
        collected
    }
}

/// Whether some entry at index `from` or later has the key `e`.
spec fn keyed_from<T>(entries: Seq<(T, i32)>, from: int, e: T) -> bool {
    exists|i: int| from <= i < entries.len() && (#[trigger] entries[i]).0 == e
}

/// How two multisets stand under domination: equal, the first contained in
/// the second, the second contained in the first, or neither.
pub open spec fn domination<T>(a: Multiset<T>, b: Multiset<T>) -> Option<Ordering> {
    if a == b {
        Some(Ordering::Equal)
    } else if a.subset_of(b) {
        Some(Ordering::Less)
    } else if b.subset_of(a) {
        Some(Ordering::Greater)
    } else {
        None
    }
}

impl<T: Eq + Hash> PartialOrd for MultiSet<T> {
    /// Compares by domination, which leaves some pairs without an order.
    fn partial_cmp(&self, other: &MultiSet<T>) -> (r: Option<Ordering>) {
        if self == other {
            return Some(Ordering::Equal);
        }
        if self.contained_in(other) {
            return Some(Ordering::Less);
        }
        if other.contained_in(self) {
            return Some(Ordering::Greater);
        }
        None
    }
}

impl<T: Eq + Hash> vstd::std_specs::cmp::PartialOrdSpecImpl for MultiSet<T> {
    open spec fn obeys_partial_cmp_spec() -> bool {
        true
    }

    open spec fn partial_cmp_spec(&self, other: &MultiSet<T>) -> Option<Ordering> {
        domination(self@, other@)
    }
}

/// Domination is reflexive: every multiset compares equal to itself.
pub proof fn lemma_order_reflexive<T: Eq + Hash>(a: MultiSet<T>)
    ensures
        a.partial_cmp_spec(&a) == Some(Ordering::Equal),
{
}

/// Two multisets each contained in the other hold the same elements with
/// the same counts.
proof fn lemma_containment_antisymmetric<T>(a: Multiset<T>, b: Multiset<T>)
    requires
        a.subset_of(b),
        b.subset_of(a),
    ensures
        a == b,
{
    assert forall|e: T| a.count(e) == b.count(e) by {
        assert(a.count(e) <= b.count(e));
        assert(b.count(e) <= a.count(e));
    }
    assert(a =~= b);
}

/// Domination is antisymmetric: two multisets each less than or equal to
/// the other are equal.
pub proof fn lemma_order_antisymmetric<T: Eq + Hash>(a: MultiSet<T>, b: MultiSet<T>)
    requires
        a.partial_cmp_spec(&b) == Some(Ordering::Less) || a.partial_cmp_spec(&b) == Some(
            Ordering::Equal,
        ),
        b.partial_cmp_spec(&a) == Some(Ordering::Less) || b.partial_cmp_spec(&a) == Some(
            Ordering::Equal,
        ),
    ensures
        a@ == b@,
        a.eq_spec(&b),
        a.partial_cmp_spec(&b) == Some(Ordering::Equal),
{
    lemma_order_consistent(a, b);
    lemma_order_consistent(b, a);
    lemma_containment_antisymmetric(a@, b@);
}

/// The order agrees with equality, and reads as containment: two multisets
/// compare equal exactly when `==` holds of them, the first is less or
/// equal exactly when it is contained in the second, and greater or equal
/// exactly when it contains the second.
pub proof fn lemma_order_consistent<T: Eq + Hash>(a: MultiSet<T>, b: MultiSet<T>)
    ensures
        a.partial_cmp_spec(&b) == Some(Ordering::Equal) <==> a.eq_spec(&b),
        a.partial_cmp_spec(&b) == Some(Ordering::Less) || a.partial_cmp_spec(&b) == Some(
            Ordering::Equal,
        ) <==> a@.subset_of(b@),
        a.partial_cmp_spec(&b) == Some(Ordering::Greater) || a.partial_cmp_spec(&b) == Some(
            Ordering::Equal,
        ) <==> b@.subset_of(a@),
{
    if a@.subset_of(b@) && b@.subset_of(a@) {
        lemma_containment_antisymmetric(a@, b@);
    }
}

/// A multiset is contained in its sum with any other, so also with one
/// whose elements are all different from its own.
pub proof fn lemma_sum_dominates<T: Eq + Hash>(a: MultiSet<T>, b: MultiSet<T>, sum: MultiSet<T>)
    requires
        sum@ == a@.add(b@),
    ensures
        a@.subset_of(sum@),
        a.partial_cmp_spec(&sum) == Some(Ordering::Less) || a.partial_cmp_spec(&sum) == Some(
            Ordering::Equal,
        ),
{
    assert forall|e: T| a@.count(e) <= sum@.count(e) by {
        assert(sum@.count(e) == a@.count(e) + b@.count(e));
    }
    lemma_order_consistent(a, sum);
}

/// The sum does not depend on the order of its operands.
pub proof fn lemma_sum_commutative<T>(a: Multiset<T>, b: Multiset<T>)
    ensures
        a.add(b) == b.add(a),
{
    assert(a.add(b) =~= b.add(a));
}

/// Sums may be grouped either way.
pub proof fn lemma_sum_associative<T>(a: Multiset<T>, b: Multiset<T>, c: Multiset<T>)
    ensures
        a.add(b).add(c) == a.add(b.add(c)),
{
    assert(a.add(b).add(c) =~= a.add(b.add(c)));
}

/// The empty multiset is the identity of the sum, on either side.
pub proof fn lemma_sum_identity<T>(a: Multiset<T>)
    ensures
        a.add(Multiset::empty()) == a,
        Multiset::empty().add(a) == a,
{
    assert(a.add(Multiset::empty()) =~= a);
    assert(Multiset::empty().add(a) =~= a);
}

/// In a difference every element has the count of the first operand less
/// that of the second, and zero where that would be negative.
pub proof fn lemma_difference_counts<T>(a: Multiset<T>, b: Multiset<T>, e: T)
    ensures
        a.sub(b).count(e) == if a.count(e) - b.count(e) > 0 {
            a.count(e) - b.count(e)
        } else {
            0
        },
{
}

} // verus!
