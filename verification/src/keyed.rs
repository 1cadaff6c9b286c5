//! Association lists with unique keys.
//!
//! A [`KeyedList`] is used for every table of a configuration: bindings by
//! trigger and combo, labels, settings, aliases. Its mathematical model is a
//! finite map from key views to value views, plus the order in which the
//! entries are walked.

use vstd::prelude::*;

verus! {

/// A key that can be compared for equality and copied.
pub trait Label: View + Sized {
    fn same(&self, other: &Self) -> (r: bool)
        ensures
            r == (self@ == other@),
    ;

    fn replicate_label(&self) -> (r: Self)
        ensures
            r@ == self@,
    ;
}

/// A value that can be copied without losing anything its view shows.
pub trait Replicate: View + Sized {
    fn replicate(&self) -> (r: Self)
        ensures
            r@ == self@,
    ;
}

impl Replicate for () {
    fn replicate(&self) -> (r: Self) {
    }
}

/// Whether no key occurs twice in a list of key-value pairs.
pub open spec fn distinct_keys<A, B>(items: Seq<(A, B)>) -> bool {
    forall|i: int, j: int|
        #![trigger items[i], items[j]]
        0 <= i < items.len() && 0 <= j < items.len() && items[i].0 == items[j].0 ==> i == j
}

/// The map that a list of key-value pairs stands for; a later pair replaces an
/// earlier one with the same key.
pub open spec fn map_of<A, B>(items: Seq<(A, B)>) -> Map<A, B>
    decreases items.len(),
{
    if items.len() == 0 {
        Map::empty()
    } else {
        map_of(items.drop_last()).insert(items.last().0, items.last().1)
    }
}

/// Every pair of a list with distinct keys is in its map, and the map holds
/// nothing else.
pub proof fn lemma_map_of<A, B>(items: Seq<(A, B)>)
    requires
        distinct_keys(items),
    ensures
        forall|i: int|
            #![trigger items[i]]
            0 <= i < items.len() ==> map_of(items).contains_key(items[i].0) && map_of(
                items,
            )[items[i].0] == items[i].1,
        forall|k: A|
            #![trigger map_of(items).contains_key(k)]
            map_of(items).contains_key(k) ==> exists|i: int|
                0 <= i < items.len() && (#[trigger] items[i]).0 == k,
    decreases items.len(),
{
    if items.len() > 0 {
        let init = items.drop_last();
        assert forall|i: int, j: int|
            #![trigger init[i], init[j]]
            0 <= i < init.len() && 0 <= j < init.len() && init[i].0 == init[j].0 implies i == j by {
            assert(init[i] == items[i]);
            assert(init[j] == items[j]);
        }
        lemma_map_of(init);
        assert forall|i: int| #![trigger items[i]] 0 <= i < items.len() implies map_of(
            items,
        ).contains_key(items[i].0) && map_of(items)[items[i].0] == items[i].1 by {
            if i < items.len() - 1 {
                assert(init[i] == items[i]);
                assert(items[i].0 != items[items.len() - 1].0);
            }
        }
        assert forall|k: A|
            #![trigger map_of(items).contains_key(k)]
            map_of(items).contains_key(k) implies exists|i: int|
            0 <= i < items.len() && (#[trigger] items[i]).0 == k by {
            if k == items.last().0 {
                assert(items[items.len() - 1].0 == k);
            } else {
                assert(map_of(init).contains_key(k));
                let i = choose|i: int| 0 <= i < init.len() && (#[trigger] init[i]).0 == k;
                assert(items[i] == init[i]);
            }
        }
    }
}

/// The map of a list with distinct keys has as many entries as the list.
pub proof fn lemma_map_of_len<A, B>(items: Seq<(A, B)>)
    requires
        distinct_keys(items),
    ensures
        map_of(items).dom().finite(),
        map_of(items).dom().len() == items.len(),
    decreases items.len(),
{
    if items.len() > 0 {
        let init = items.drop_last();
        assert(init =~= items.take(items.len() - 1));
        lemma_take_lacks(items, items.len() - 1);
        lemma_map_of_len(init);
        assert(map_of(items).dom() =~= map_of(init).dom().insert(items.last().0));
    }
}

/// Appending a pair inserts it into the map.
pub proof fn lemma_map_of_push<A, B>(items: Seq<(A, B)>, k: A, v: B)
    ensures
        map_of(items.push((k, v))) == map_of(items).insert(k, v),
{
    assert(items.push((k, v)).drop_last() =~= items);
}

/// The map of the first `i + 1` pairs is that of the first `i` with one more.
pub proof fn lemma_map_of_take<A, B>(items: Seq<(A, B)>, i: int)
    requires
        0 <= i < items.len(),
    ensures
        map_of(items.take(i + 1)) == map_of(items.take(i)).insert(items[i].0, items[i].1),
{
    assert(items.take(i + 1).drop_last() =~= items.take(i));
}

/// With distinct keys, the first `i` pairs say nothing of the next key.
pub proof fn lemma_take_lacks<A, B>(items: Seq<(A, B)>, i: int)
    requires
        distinct_keys(items),
        0 <= i < items.len(),
    ensures
        !map_of(items.take(i)).contains_key(items[i].0),
        distinct_keys(items.take(i)),
{
    let t = items.take(i);
    assert forall|a: int, b: int|
        #![trigger t[a], t[b]]
        0 <= a < t.len() && 0 <= b < t.len() && t[a].0 == t[b].0 implies a == b by {
        assert(t[a] == items[a]);
        assert(t[b] == items[b]);
    }
    lemma_map_of(t);
    if map_of(t).contains_key(items[i].0) {
        let j = choose|j: int| 0 <= j < t.len() && (#[trigger] t[j]).0 == items[i].0;
        assert(items[j] == t[j]);
    }
}

/// Replacing the value of a pair replaces it in the map.
proof fn lemma_map_of_update<A, B>(items: Seq<(A, B)>, n: int, v: B)
    requires
        distinct_keys(items),
        0 <= n < items.len(),
    ensures
        distinct_keys(items.update(n, (items[n].0, v))),
        map_of(items.update(n, (items[n].0, v))) == map_of(items).insert(items[n].0, v),
{
    let new = items.update(n, (items[n].0, v));
    assert forall|i: int, j: int|
        #![trigger new[i], new[j]]
        0 <= i < new.len() && 0 <= j < new.len() && new[i].0 == new[j].0 implies i == j by {
        assert(items[i].0 == new[i].0);
        assert(items[j].0 == new[j].0);
    }
    lemma_map_of(items);
    lemma_map_of(new);
    let m = map_of(items).insert(items[n].0, v);
    assert forall|k: A| map_of(new).contains_key(k) <==> #[trigger] m.contains_key(k) by {
        if map_of(new).contains_key(k) {
            let i = choose|i: int| 0 <= i < new.len() && (#[trigger] new[i]).0 == k;
            assert(items[i].0 == k);
        }
        if map_of(items).contains_key(k) {
            let i = choose|i: int| 0 <= i < items.len() && (#[trigger] items[i]).0 == k;
            assert(new[i].0 == k);
        }
        assert(new[n].0 == items[n].0);
    }
    assert forall|k: A| m.contains_key(k) implies #[trigger] map_of(new)[k] == m[k] by {
        assert(map_of(new).contains_key(k));
        let i = choose|i: int| 0 <= i < new.len() && (#[trigger] new[i]).0 == k;
        assert(items[i].0 == k);
        assert(new[n].0 == items[n].0);
    }
    assert(map_of(new) =~= m);
}

/// Taking a pair out of the list removes its key from the map.
proof fn lemma_map_of_remove<A, B>(items: Seq<(A, B)>, n: int)
    requires
        distinct_keys(items),
        0 <= n < items.len(),
    ensures
        distinct_keys(items.remove(n)),
        map_of(items.remove(n)) == map_of(items).remove(items[n].0),
{
    let new = items.remove(n);
    assert forall|i: int, j: int|
        #![trigger new[i], new[j]]
        0 <= i < new.len() && 0 <= j < new.len() && new[i].0 == new[j].0 implies i == j by {
        let i0 = if i < n { i } else { i + 1 };
        let j0 = if j < n { j } else { j + 1 };
        assert(items[i0] == new[i]);
        assert(items[j0] == new[j]);
    }
    lemma_map_of(items);
    lemma_map_of(new);
    let m = map_of(items).remove(items[n].0);
    assert forall|k: A| map_of(new).contains_key(k) <==> #[trigger] m.contains_key(k) by {
        if map_of(new).contains_key(k) {
            let i = choose|i: int| 0 <= i < new.len() && (#[trigger] new[i]).0 == k;
            let i0 = if i < n { i } else { i + 1 };
            assert(items[i0] == new[i]);
            assert(items[n].0 != k);
        }
        if m.contains_key(k) {
            let i = choose|i: int| 0 <= i < items.len() && (#[trigger] items[i]).0 == k;
            let i1 = if i < n { i } else { i - 1 };
            assert(i != n);
            assert(new[i1] == items[i]);
        }
    }
    assert forall|k: A| m.contains_key(k) implies #[trigger] map_of(new)[k] == m[k] by {
        assert(map_of(new).contains_key(k));
        let i = choose|i: int| 0 <= i < new.len() && (#[trigger] new[i]).0 == k;
        let i0 = if i < n { i } else { i + 1 };
        assert(items[i0] == new[i]);
    }
    assert(map_of(new) =~= m);
}

/// An association list in which every key occurs once.
#[derive(Debug, PartialEq, Eq)]
pub struct KeyedList<K: View, V: View> {
    entries: Vec<(K, V)>,
}

impl<K: View, V: View> KeyedList<K, V> {
    /// The entries in the order in which they are walked.
    pub closed spec fn items(&self) -> Seq<(K::V, V::V)> {
        Seq::new(self.entries@.len(), |i: int| (self.entries@[i].0@, self.entries@[i].1@))
    }

    #[verifier::type_invariant]
    spec fn keys_are_distinct(&self) -> bool {
        distinct_keys(self.items())
    }
}

impl<K: View, V: View> View for KeyedList<K, V> {
    type V = Map<K::V, V::V>;

    open spec fn view(&self) -> Map<K::V, V::V> {
        map_of(self.items())
    }
}

impl<K: Label, V: Replicate> KeyedList<K, V> {
    /// The empty list.
    pub fn new() -> (r: Self)
        ensures
            r.items() == Seq::<(K::V, V::V)>::empty(),
            r@ == Map::<K::V, V::V>::empty(),
    {
        let r = KeyedList { entries: Vec::new() };
        assert(r.items() =~= Seq::<(K::V, V::V)>::empty());
        r
    }

    /// How many entries there are. The keys of the walk are distinct.
    pub fn len(&self) -> (n: usize)
        ensures
            n == self.items().len(),
            n == self@.dom().len(),
            distinct_keys(self.items()),
    {
        proof {
            use_type_invariant(self);
            lemma_map_of_len(self.items());
        }
        self.entries.len()
    }

    pub fn is_empty(&self) -> (b: bool)
        ensures
            b == (self.items().len() == 0),
            b == (self@ == Map::<K::V, V::V>::empty()),
    {
        proof {
            use_type_invariant(self);
            lemma_map_of(self.items());
            if self.items().len() > 0 {
                assert(self@.contains_key(self.items()[0].0));
            } else {
                assert(self@ =~= Map::<K::V, V::V>::empty());
            }
        }
        self.entries.len() == 0
    }

    /// The key of the `i`-th entry of the walk.
    pub fn key_at(&self, i: usize) -> (k: &K)
        requires
            i < self.items().len(),
        ensures
            k@ == self.items()[i as int].0,
            self@.contains_key(k@),
            self@[k@] == self.items()[i as int].1,
    {
        proof {
            use_type_invariant(self);
            lemma_map_of(self.items());
        }
        &self.entries[i].0
    }

    /// The value of the `i`-th entry of the walk.
    pub fn value_at(&self, i: usize) -> (v: &V)
        requires
            i < self.items().len(),
        ensures
            v@ == self.items()[i as int].1,
    {
        proof {
            use_type_invariant(self);
        }
        &self.entries[i].1
    }

    /// The walk meets every entry once, and nothing else.
    pub proof fn lemma_items(&self)
        requires
            distinct_keys(self.items()),
        ensures
            forall|i: int|
                #![trigger self.items()[i]]
                0 <= i < self.items().len() ==> self@.contains_key(self.items()[i].0)
                    && self@[self.items()[i].0] == self.items()[i].1,
            forall|k: K::V|
                #![trigger self@.contains_key(k)]
                self@.contains_key(k) ==> exists|i: int|
                    0 <= i < self.items().len() && (#[trigger] self.items()[i]).0 == k,
    {
        lemma_map_of(self.items());
    }

    fn position(&self, key: &K) -> (r: Option<usize>)
        ensures
            match r {
                Some(i) => i < self.items().len() && self.items()[i as int].0 == key@,
                None => !self@.contains_key(key@),
            },
            distinct_keys(self.items()),
    {
        proof {
            use_type_invariant(self);
            lemma_map_of(self.items());
        }
        let mut i: usize = 0;
        while i < self.entries.len()
            invariant
                i <= self.entries@.len(),
                self.items().len() == self.entries@.len(),
                distinct_keys(self.items()),
                forall|j: int| 0 <= j < i ==> (#[trigger] self.items()[j]).0 != key@,
            decreases self.entries@.len() - i,
        {
            if self.entries[i].0.same(key) {
                return Some(i);
            }
            i = i + 1;
        }
        None
    }

    /// Whether `key` has an entry.
    pub fn contains_key(&self, key: &K) -> (b: bool)
        ensures
            b == self@.contains_key(key@),
    {
        proof {
            use_type_invariant(self);
            lemma_map_of(self.items());
        }
        self.position(key).is_some()
    }

    /// The value of `key`, where it has one.
    pub fn get(&self, key: &K) -> (r: Option<&V>)
        ensures
            match r {
                Some(v) => self@.contains_key(key@) && v@ == self@[key@],
                None => !self@.contains_key(key@),
            },
    {
        proof {
            use_type_invariant(self);
            lemma_map_of(self.items());
        }
        match self.position(key) {
            Some(i) => Some(&self.entries[i].1),
            None => None,
        }
    }

    /// Give `key` the value `value`, in the place of the one it had.
    pub fn insert(&mut self, key: K, value: V)
        ensures
            final(self)@ == old(self)@.insert(key@, value@),
            !old(self)@.contains_key(key@) ==> final(self).items() == old(self).items().push(
                (key@, value@),
            ),
    {
        let found = self.position(&key);
        let ghost before = self.items();
        let mut entries: Vec<(K, V)> = Vec::new();
        std::mem::swap(&mut entries, &mut self.entries);
        match found {
            Some(i) => {
                let ghost old_entries = entries@;
                entries.set(i, (key, value));
                proof {
                    lemma_map_of_update(before, i as int, value@);
                    lemma_map_of(before);
                    assert(Seq::new(entries@.len(), |j: int| (entries@[j].0@, entries@[j].1@))
                        =~= before.update(i as int, (before[i as int].0, value@)));
                }
            },
            None => {
                entries.push((key, value));
                proof {
                    lemma_map_of_push(before, key@, value@);
                    lemma_map_of(before);
                    let new = Seq::new(entries@.len(), |j: int| (entries@[j].0@, entries@[j].1@));
                    assert(new =~= before.push((key@, value@)));
                    assert forall|a: int, b: int|
                        #![trigger new[a], new[b]]
                        0 <= a < new.len() && 0 <= b < new.len() && new[a].0
                            == new[b].0 implies a == b by {
                        if a < before.len() {
                            assert(before[a] == new[a]);
                        }
                        if b < before.len() {
                            assert(before[b] == new[b]);
                        }
                    }
                }
            },
        }
        self.entries = entries;
        proof {
            assert(self.items() =~= Seq::new(
                entries@.len(),
                |j: int| (entries@[j].0@, entries@[j].1@),
            ));
        }
    }

    /// Take the entry of `key` out, where there is one.
    pub fn remove(&mut self, key: &K)
        ensures
            final(self)@ == old(self)@.remove(key@),
    {
        let found = self.position(key);
        let ghost before = self.items();
        if let Some(i) = found {
            let mut entries: Vec<(K, V)> = Vec::new();
            std::mem::swap(&mut entries, &mut self.entries);
            let gone = entries.remove(i);
            proof {
                lemma_map_of_remove(before, i as int);
                assert(Seq::new(entries@.len(), |j: int| (entries@[j].0@, entries@[j].1@))
                    =~= before.remove(i as int));
            }
            self.entries = entries;
            proof {
                assert(self.items() =~= before.remove(i as int));
            }
        } else {
            assert(self@.remove(key@) =~= self@);
        }
    }

    /// Take over every entry of `other`, in the place of those of the same key.
    pub fn insert_all(&mut self, other: &KeyedList<K, V>)
        ensures
            final(self)@ == old(self)@.union_prefer_right(other@),
    {
        let ghost items = other.items();
        let mut i: usize = 0;
        let n: usize = other.len();
        assert(items.take(0) =~= Seq::<(K::V, V::V)>::empty());
        assert(self@.union_prefer_right(map_of(items.take(0))) =~= self@);
        while i < n
            invariant
                i <= n == items.len(),
                items == other.items(),
                self@ == old(self)@.union_prefer_right(map_of(items.take(i as int))),
            decreases n - i,
        {
            self.insert(other.key_at(i).replicate_label(), other.value_at(i).replicate());
            proof {
                lemma_map_of_take(items, i as int);
                assert(self@ =~= old(self)@.union_prefer_right(map_of(items.take(i + 1))));
            }
            i = i + 1;
        }
        assert(items.take(n as int) =~= items);
    }

    /// Take over the entries of `other` whose keys have none.
    pub fn insert_missing(&mut self, other: &KeyedList<K, V>)
        ensures
            final(self)@ == other@.union_prefer_right(old(self)@),
    {
        let ghost items = other.items();
        let mut i: usize = 0;
        let n: usize = other.len();
        assert(items.take(0) =~= Seq::<(K::V, V::V)>::empty());
        assert(map_of(items.take(0)).union_prefer_right(self@) =~= self@);
        while i < n
            invariant
                i <= n == items.len(),
                items == other.items(),
                distinct_keys(items),
                self@ == map_of(items.take(i as int)).union_prefer_right(old(self)@),
            decreases n - i,
        {
            let key = other.key_at(i);
            let known: bool = self.contains_key(key);
            proof {
                lemma_map_of_take(items, i as int);
                lemma_take_lacks(items, i as int);
            }
            if !known {
                self.insert(key.replicate_label(), other.value_at(i).replicate());
            }
            assert(self@ =~= map_of(items.take(i + 1)).union_prefer_right(old(self)@));
            i = i + 1;
        }
        assert(items.take(n as int) =~= items);
    }

    /// Take out every entry whose key has one in `other`.
    pub fn remove_all<W: Replicate>(&mut self, other: &KeyedList<K, W>)
        ensures
            final(self)@ == old(self)@.remove_keys(other@.dom()),
    {
        let ghost items = other.items();
        let mut i: usize = 0;
        let n: usize = other.len();
        assert(items.take(0) =~= Seq::<(K::V, W::V)>::empty());
        assert(self@.remove_keys(map_of(items.take(0)).dom()) =~= self@);
        while i < n
            invariant
                i <= n == items.len(),
                items == other.items(),
                self@ == old(self)@.remove_keys(map_of(items.take(i as int)).dom()),
            decreases n - i,
        {
            self.remove(other.key_at(i));
            proof {
                lemma_map_of_take(items, i as int);
                assert(self@ =~= old(self)@.remove_keys(map_of(items.take(i + 1)).dom()));
            }
            i = i + 1;
        }
        assert(items.take(n as int) =~= items);
    }
}

impl<K: Label, V: Replicate> Clone for KeyedList<K, V> {
    fn clone(&self) -> (r: Self)
        ensures
            r@ == self@,
            r.items() == self.items(),
    {
        proof {
            use_type_invariant(self);
        }
        let mut entries: Vec<(K, V)> = Vec::new();
        let mut i: usize = 0;
        while i < self.entries.len()
            invariant
                i <= self.entries@.len(),
                entries@.len() == i,
                forall|j: int|
                    0 <= j < i ==> (#[trigger] entries@[j]).0@ == self.entries@[j].0@
                        && entries@[j].1@ == self.entries@[j].1@,
            decreases self.entries@.len() - i,
        {
            entries.push((self.entries[i].0.replicate_label(), self.entries[i].1.replicate()));
            i = i + 1;
        }
        proof {
            assert(Seq::new(entries@.len(), |j: int| (entries@[j].0@, entries@[j].1@))
                =~= self.items());
        }
        let r = KeyedList { entries };
        assert(r.items() =~= self.items());
        r
    }
}

impl<K: Label, V: Replicate> Replicate for KeyedList<K, V> {
    fn replicate(&self) -> (r: Self) {
        self.clone()
    }
}

} // verus!
