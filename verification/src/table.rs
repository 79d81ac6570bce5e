//! Maps from plain keys to values, kept as a list of entries.

use vstd::prelude::*;

verus! {

/// Keys that a table can tell apart.
pub trait Key: Copy {
    fn same(self, other: Self) -> (result: bool)
        ensures
            result == (self == other),
    ;
}

impl Key for u64 {
    fn same(self, other: Self) -> (result: bool) {
        self == other
    }
}

impl Key for u128 {
    fn same(self, other: Self) -> (result: bool) {
        self == other
    }
}

/// Values that a table can hold.
pub trait Stored: Sized {
    /// What the value is, for contracts.
    type Model;

    spec fn stored(&self) -> Self::Model;

    /// The value is well formed.
    spec fn sound(&self) -> bool;
}

impl Stored for u8 {
    type Model = u8;

    open spec fn stored(&self) -> u8 {
        *self
    }

    open spec fn sound(&self) -> bool {
        true
    }
}

impl Stored for u64 {
    type Model = u64;

    open spec fn stored(&self) -> u64 {
        *self
    }

    open spec fn sound(&self) -> bool {
        true
    }
}

impl<T: crate::ordered::Ranked> Stored for crate::ordered::OrderedSet<T> {
    type Model = Set<T::Model>;

    open spec fn stored(&self) -> Set<T::Model> {
        self@
    }

    open spec fn sound(&self) -> bool {
        self.wf()
    }
}

impl Stored for bool {
    type Model = bool;

    open spec fn stored(&self) -> bool {
        *self
    }

    open spec fn sound(&self) -> bool {
        true
    }
}

/// The keys of a list of entries, in the order of the list.
pub open spec fn keys_of<K, V>(entries: Seq<(K, V)>) -> Seq<K> {
    entries.map_values(|entry: (K, V)| entry.0)
}

/// The map that a list of entries with distinct keys stands for.
pub open spec fn map_of<K, V>(entries: Seq<(K, V)>) -> Map<K, V> {
    Map::new(
        |key: K| exists|i: int| 0 <= i < entries.len() && (#[trigger] entries[i]).0 == key,
        |key: K| entries[choose|i: int| 0 <= i < entries.len() && (#[trigger] entries[i]).0 == key].1,
    )
}

/// The entries of a list with what their values are.
pub open spec fn entry_models<K, V: Stored>(entries: Seq<(K, V)>) -> Seq<(K, V::Model)> {
    entries.map_values(|entry: (K, V)| (entry.0, entry.1.stored()))
}

/// A map in which every key stands once.
pub struct Table<K: Key, V: Stored> {
    entries: Vec<(K, V)>,
}

impl<K: Key, V: Stored> Table<K, V> {
    pub closed spec fn view(&self) -> Map<K, V::Model> {
        map_of(entry_models(self.entries@))
    }

    /// The keys in the order in which the table keeps them.
    pub closed spec fn order(&self) -> Seq<K> {
        keys_of(self.entries@)
    }

    pub closed spec fn wf(&self) -> bool {
        &&& forall|i: int, j: int|
            0 <= i < j < self.entries@.len() ==> (#[trigger] self.entries@[i]).0 != (
            #[trigger] self.entries@[j]).0
        &&& forall|i: int| 0 <= i < self.entries@.len() ==> (#[trigger] self.entries@[i]).1.sound()
    }

    proof fn lemma_distinct(&self)
        requires
            self.wf(),
        ensures
            ({
                let models = entry_models(self.entries@);
                forall|i: int, j: int|
                    0 <= i < j < models.len() ==> (#[trigger] models[i]).0 != (
                    #[trigger] models[j]).0
            }),
    {
        let models = entry_models(self.entries@);
        assert forall|i: int, j: int| 0 <= i < j < models.len() implies (#[trigger] models[i]).0
            != (#[trigger] models[j]).0 by {
            assert(self.entries@[i].0 != self.entries@[j].0);
        }
    }

    proof fn lemma_entry(&self, i: int)
        requires
            self.wf(),
            0 <= i < self.entries@.len(),
        ensures
            self@.contains_key(self.entries@[i].0),
            self@[self.entries@[i].0] == self.entries@[i].1.stored(),
            self.order()[i] == self.entries@[i].0,
    {
        self.lemma_distinct();
        let models = entry_models(self.entries@);
        lemma_map_entry(models, i);
        assert(models[i] == (self.entries@[i].0, self.entries@[i].1.stored()));
    }

    /// The order holds every key of the map once.
    pub proof fn lemma_order(&self)
        requires
            self.wf(),
        ensures
            self.order().no_duplicates(),
            self.order().to_set() == self@.dom(),
            self@.dom().finite(),
            self@.dom().len() == self.order().len(),
            forall|i: int|
                0 <= i < self.order().len() ==> self@.contains_key(#[trigger] self.order()[i]),
            forall|key: K| #[trigger]
                self@.contains_key(key) ==> exists|i: int|
                    0 <= i < self.order().len() && self.order()[i] == key,
    {
        let keys = self.order();
        assert forall|i: int, j: int|
            0 <= i < keys.len() && 0 <= j < keys.len() && i != j implies keys[i] != keys[j] by {
            if i < j {
                assert(self.entries@[i].0 != self.entries@[j].0);
            } else {
                assert(self.entries@[j].0 != self.entries@[i].0);
            }
        }
        let models = entry_models(self.entries@);
        assert forall|key: K| keys.to_set().contains(key) == self@.contains_key(key) by {
            if self@.contains_key(key) {
                let i = choose|i: int| 0 <= i < models.len() && (#[trigger] models[i]).0 == key;
                assert(keys[i] == key);
            }
            if keys.contains(key) {
                let i = choose|i: int| 0 <= i < keys.len() && keys[i] == key;
                assert(models[i].0 == key);
            }
        }
        assert(keys.to_set() =~= self@.dom());
        keys.unique_seq_to_set();
        assert forall|i: int| 0 <= i < keys.len() implies self@.contains_key(
            #[trigger] keys[i],
        ) by {
            assert(keys.to_set().contains(keys[i]));
        }
        assert forall|key: K| #[trigger] self@.contains_key(key) implies exists|i: int|
            0 <= i < keys.len() && keys[i] == key by {
            assert(keys.to_set().contains(key));
        }
    }

    pub fn new() -> (table: Self)
        ensures
            table.wf(),
            table@ == Map::<K, V::Model>::empty(),
    {
        let table = Table { entries: Vec::new() };
        assert(table@ =~= Map::empty());
        table
    }

    pub fn len(&self) -> (n: usize)
        requires
            self.wf(),
        ensures
            n == self.order().len(),
            n == self@.dom().len(),
            self@.dom().finite(),
    {
        proof {
            self.lemma_order();
        }
        self.entries.len()
    }

    pub fn is_empty(&self) -> (result: bool)
        requires
            self.wf(),
        ensures
            result == (self.order().len() == 0),
            result == (self@ == Map::<K, V::Model>::empty()),
    {
        proof {
            if self.entries@.len() > 0 {
                self.lemma_entry(0);
            } else {
                assert(self@ =~= Map::empty());
            }
        }
        self.entries.len() == 0
    }

    pub fn key_at(&self, index: usize) -> (key: K)
        requires
            self.wf(),
            index < self.order().len(),
        ensures
            key == self.order()[index as int],
            self@.contains_key(key),
    {
        proof {
            self.lemma_entry(index as int);
        }
        self.entries[index].0
    }

    pub fn value_at(&self, index: usize) -> (value: &V)
        requires
            self.wf(),
            index < self.order().len(),
        ensures
            self@.contains_key(self.order()[index as int]),
            value.stored() == self@[self.order()[index as int]],
            value.sound(),
    {
        proof {
            self.lemma_entry(index as int);
        }
        &self.entries[index].1
    }

    fn position(&self, key: K) -> (at: Option<usize>)
        requires
            self.wf(),
        ensures
            at is Some == self@.contains_key(key),
            at matches Some(i) ==> i < self.entries@.len() && self.entries@[i as int].0 == key
                && self@[key] == self.entries@[i as int].1.stored(),
    {
        let mut i: usize = 0;
        while i < self.entries.len()
            invariant
                i <= self.entries@.len(),
                self.wf(),
                forall|k: int| 0 <= k < i ==> (#[trigger] self.entries@[k]).0 != key,
            decreases self.entries@.len() - i,
        {
            if self.entries[i].0.same(key) {
                proof {
                    self.lemma_entry(i as int);
                }
                return Some(i);
            }
            i += 1;
        }
        proof {
            let models = entry_models(self.entries@);
            if self@.contains_key(key) {
                let k = choose|k: int| 0 <= k < models.len() && (#[trigger] models[k]).0 == key;
                assert(self.entries@[k].0 == key);
            }
        }
        None
    }

    pub fn has(&self, key: K) -> (result: bool)
        requires
            self.wf(),
        ensures
            result == self@.contains_key(key),
    {
        self.position(key).is_some()
    }

    pub fn get(&self, key: K) -> (value: Option<&V>)
        requires
            self.wf(),
        ensures
            match value {
                Some(value) => self@.contains_key(key) && value.stored() == self@[key]
                    && value.sound(),
                None => !self@.contains_key(key),
            },
    {
        match self.position(key) {
            Some(at) => Some(&self.entries[at].1),
            None => None,
        }
    }

    /// Sets the value of a key.
    pub fn insert(&mut self, key: K, value: V)
        requires
            old(self).wf(),
            value.sound(),
        ensures
            final(self).wf(),
            final(self)@ == old(self)@.insert(key, value.stored()),
    {
        let ghost before = entry_models(self.entries@);
        proof {
            self.lemma_distinct();
        }
        match self.position(key) {
            Some(at) => {
                let _ = self.entries.remove(at);
                self.entries.insert(at, (key, value));
                proof {
                    assert(self.entries@ =~= old(self).entries@.update(at as int, (key, value)));
                    assert(entry_models(self.entries@) =~= before.update(
                        at as int,
                        (key, value.stored()),
                    ));
                    assert(before[at as int].0 == key);
                    lemma_update(before, at as int, value.stored());
                }
            },
            None => {
                self.entries.push((key, value));
                proof {
                    assert(entry_models(self.entries@) =~= before.push((key, value.stored())));
                    lemma_append(before, key, value.stored());
                    assert forall|i: int, j: int| 0 <= i < j < self.entries@.len() implies (
                    #[trigger] self.entries@[i]).0 != (#[trigger] self.entries@[j]).0 by {
                        let after = before.push((key, value.stored()));
                        assert(after[i].0 != after[j].0);
                    }
                }
            },
        }
    }

    /// Takes a key out and hands back its value.
    pub fn remove(&mut self, key: K) -> (removed: Option<V>)
        requires
            old(self).wf(),
        ensures
            final(self).wf(),
            final(self)@ == old(self)@.remove(key),
            match removed {
                Some(value) => old(self)@.contains_key(key) && value.stored() == old(self)@[key]
                    && value.sound(),
                None => !old(self)@.contains_key(key) && final(self)@ == old(self)@,
            },
    {
        let ghost before = entry_models(self.entries@);
        proof {
            self.lemma_distinct();
        }
        match self.position(key) {
            Some(at) => {
                let entry = self.entries.remove(at);
                proof {
                    assert(entry_models(self.entries@) =~= before.remove(at as int));
                    assert(before[at as int].0 == key);
                    lemma_take_out(before, at as int);
                    assert forall|i: int, j: int| 0 <= i < j < self.entries@.len() implies (
                    #[trigger] self.entries@[i]).0 != (#[trigger] self.entries@[j]).0 by {
                        let after = before.remove(at as int);
                        assert(after[i].0 != after[j].0);
                    }
                }
                Some(entry.1)
            },
            None => {
                assert(self@ =~= old(self)@.remove(key));
                None
            },
        }
    }

    /// Whether some entry passes a test.
    pub fn any<T: EntryTest<K, V>>(&self, test: &T) -> (found: bool)
        requires
            self.wf(),
            test.ready(),
        ensures
            found == exists|key: K| #[trigger]
                self@.contains_key(key) && test.passes(key, self@[key]),
    {
        let mut i: usize = 0;
        proof {
            self.lemma_order();
        }
        while i < self.entries.len()
            invariant
                i <= self.entries@.len() == self.order().len(),
                self.wf(),
                test.ready(),
                forall|k: int|
                    0 <= k < i ==> !test.passes(self.order()[k], self@[#[trigger] self.order()[k]]),
            decreases self.entries@.len() - i,
        {
            proof {
                self.lemma_entry(i as int);
            }
            if test.test(self.entries[i].0, &self.entries[i].1) {
                return true;
            }
            i += 1;
        }
        proof {
            self.lemma_order();
            assert forall|key: K| #[trigger] self@.contains_key(key) implies !test.passes(
                key,
                self@[key],
            ) by {
                let k = choose|k: int| 0 <= k < self.order().len() && self.order()[k] == key;
                assert(!test.passes(self.order()[k], self@[self.order()[k]]));
            }
        }
        false
    }

    /// The keys of the entries that pass a test.
    pub fn select<T: EntryTest<K, V>>(&self, test: &T) -> (keys: Vec<K>)
        requires
            self.wf(),
            test.ready(),
        ensures
            keys@.no_duplicates(),
            keys@.to_set() == passing(self@, test),
    {
        let mut keys: Vec<K> = Vec::new();
        let mut i: usize = 0;
        proof {
            self.lemma_order();
        }
        while i < self.entries.len()
            invariant
                i <= self.entries@.len() == self.order().len(),
                self.wf(),
                test.ready(),
                self.order().no_duplicates(),
                keys@.no_duplicates(),
                forall|key: K| #[trigger]
                    keys@.contains(key) <==> test.passes(key, self@[key]) && exists|k: int|
                        0 <= k < i && self.order()[k] == key,
            decreases self.entries@.len() - i,
        {
            proof {
                self.lemma_entry(i as int);
            }
            let ghost here = self.order()[i as int];
            let ghost before = keys@;
            if test.test(self.entries[i].0, &self.entries[i].1) {
                let key = self.entries[i].0;
                keys.push(key);
                proof {
                    assert(!before.contains(here)) by {
                        if before.contains(here) {
                            let k = choose|k: int| 0 <= k < i && self.order()[k] == here;
                            assert(self.order()[k] != self.order()[i as int]);
                        }
                    }
                    lemma_push_distinct(before, here);
                }
            }
            proof {
                assert forall|key: K| #[trigger] keys@.contains(key) <==> test.passes(
                    key,
                    self@[key],
                ) && exists|k: int| 0 <= k < i + 1 && self.order()[k] == key by {
                    crate::ordered::lemma_push_set(before, here);
                    assert(before.contains(key) <==> before.to_set().contains(key));
                    assert(keys@.contains(key) <==> keys@.to_set().contains(key));
                    assert(before.contains(key) <==> test.passes(key, self@[key]) && exists|k: int|
                        0 <= k < i && self.order()[k] == key);
                    if key == here {
                        assert(self.order()[i as int] == key);
                    }
                }
            }
            i += 1;
        }
        proof {
            self.lemma_order();
            assert(keys@.to_set() =~= passing(self@, test));
        }
        keys
    }

    /// Takes the entries that pass a test out.
    pub fn discard<T: EntryTest<K, V>>(&mut self, test: &T)
        requires
            old(self).wf(),
            test.ready(),
        ensures
            final(self).wf(),
            final(self)@ == old(self)@.remove_keys(passing(old(self)@, test)),
    {
        let keys = self.select(test);
        let mut i: usize = 0;
        assert(self@ =~= old(self)@.remove_keys(keys@.take(0).to_set()));
        while i < keys.len()
            invariant
                i <= keys@.len(),
                self.wf(),
                self@ == old(self)@.remove_keys(keys@.take(i as int).to_set()),
            decreases keys@.len() - i,
        {
            let _ = self.remove(keys[i]);
            proof {
                let taken = keys@.take(i as int);
                let next = keys@.take(i + 1);
                assert(next =~= taken.push(keys@[i as int]));
                crate::ordered::lemma_push_set(taken, keys@[i as int]);
                assert(self@ =~= old(self)@.remove_keys(next.to_set()));
            }
            i += 1;
        }
        assert(keys@.take(i as int) =~= keys@);
    }
}

impl<K: Key + crate::ordered::Ranked<Model = K>, V: Stored> Table<K, V> {
    /// The keys in rank order.
    pub fn sorted_keys(&self) -> (keys: crate::ordered::OrderedSet<K>)
        requires
            self.wf(),
            forall|key: K| (#[trigger] key.model()) == key,
        ensures
            keys.wf(),
            keys@ == self@.dom(),
    {
        let mut keys: crate::ordered::OrderedSet<K> = crate::ordered::OrderedSet::new();
        let mut i: usize = 0;
        proof {
            self.lemma_order();
        }
        assert(keys@ =~= self.order().take(0).to_set());
        while i < self.entries.len()
            invariant
                i <= self.entries@.len() == self.order().len(),
                self.wf(),
                keys.wf(),
                forall|key: K| (#[trigger] key.model()) == key,
                keys@ == self.order().take(i as int).to_set(),
            decreases self.entries@.len() - i,
        {
            let key = self.key_at(i);
            let _ = keys.insert(key);
            proof {
                let taken = self.order().take(i as int);
                assert(self.order().take(i + 1) =~= taken.push(key));
                crate::ordered::lemma_push_set(taken, key);
                assert(key.model() == key);
            }
            i += 1;
        }
        assert(self.order().take(i as int) =~= self.order());
        keys
    }
}

/// A test of the entries of a table.
pub trait EntryTest<K: Key, V: Stored> {
    /// What the test looks at is well formed.
    spec fn ready(&self) -> bool;

    spec fn passes(&self, key: K, value: V::Model) -> bool;

    fn test(&self, key: K, value: &V) -> (result: bool)
        requires
            self.ready(),
            value.sound(),
        ensures
            result == self.passes(key, value.stored()),
    ;
}

/// The keys of the entries that pass a test.
pub open spec fn passing<K: Key, V: Stored, T: EntryTest<K, V>>(
    map: Map<K, V::Model>,
    test: &T,
) -> Set<K> {
    map.dom().filter(|key: K| test.passes(key, map[key]))
}

proof fn lemma_push_distinct<K>(keys: Seq<K>, key: K)
    requires
        keys.no_duplicates(),
        !keys.contains(key),
    ensures
        keys.push(key).no_duplicates(),
{
    let after = keys.push(key);
    assert forall|i: int, j: int|
        0 <= i < after.len() && 0 <= j < after.len() && i != j implies after[i] != after[j] by {
        if i == keys.len() {
            assert(keys.contains(after[j]));
        } else if j == keys.len() {
            assert(keys.contains(after[i]));
        }
    }
}

/// A set of keys.
pub struct KeySet<K: Key> {
    items: Vec<K>,
}

impl<K: Key> KeySet<K> {
    pub closed spec fn view(&self) -> Set<K> {
        self.items@.to_set()
    }

    pub closed spec fn wf(&self) -> bool {
        self.items@.no_duplicates()
    }

    pub fn new() -> (set: Self)
        ensures
            set.wf(),
            set@ == Set::<K>::empty(),
    {
        let set = KeySet { items: Vec::new() };
        assert(set@ =~= Set::empty());
        set
    }

    pub fn len(&self) -> (n: usize)
        requires
            self.wf(),
        ensures
            n == self@.len(),
            self@.finite(),
    {
        proof {
            self.items@.unique_seq_to_set();
        }
        self.items.len()
    }

    pub fn is_empty(&self) -> (result: bool)
        requires
            self.wf(),
        ensures
            result == (self@ == Set::<K>::empty()),
    {
        proof {
            if self.items@.len() > 0 {
                assert(self@.contains(self.items@[0]));
            } else {
                assert(self@ =~= Set::empty());
            }
        }
        self.items.len() == 0
    }

    fn position(&self, key: K) -> (at: Option<usize>)
        ensures
            at is Some == self@.contains(key),
            at matches Some(i) ==> i < self.items@.len() && self.items@[i as int] == key,
    {
        let mut i: usize = 0;
        while i < self.items.len()
            invariant
                i <= self.items@.len(),
                forall|k: int| 0 <= k < i ==> self.items@[k] != key,
            decreases self.items@.len() - i,
        {
            if self.items[i].same(key) {
                return Some(i);
            }
            i += 1;
        }
        None
    }

    pub fn contains(&self, key: K) -> (result: bool)
        ensures
            result == self@.contains(key),
    {
        self.position(key).is_some()
    }

    pub fn insert(&mut self, key: K)
        requires
            old(self).wf(),
        ensures
            final(self).wf(),
            final(self)@ == old(self)@.insert(key),
    {
        if self.position(key).is_none() {
            self.items.push(key);
            proof {
                crate::ordered::lemma_push_set(old(self).items@, key);
                assert(self.items@.no_duplicates()) by {
                    assert forall|i: int, j: int|
                        0 <= i < self.items@.len() && 0 <= j < self.items@.len() && i
                            != j implies self.items@[i] != self.items@[j] by {
                        if i == old(self).items@.len() {
                            assert(old(self).items@.contains(self.items@[j]));
                        } else if j == old(self).items@.len() {
                            assert(old(self).items@.contains(self.items@[i]));
                        }
                    }
                }
            }
        } else {
            assert(self@ =~= old(self)@.insert(key));
        }
    }

    /// Takes a key out; says whether it was there.
    pub fn remove(&mut self, key: K) -> (removed: bool)
        requires
            old(self).wf(),
        ensures
            final(self).wf(),
            final(self)@ == old(self)@.remove(key),
            removed == old(self)@.contains(key),
    {
        match self.position(key) {
            Some(at) => {
                let _ = self.items.remove(at);
                proof {
                    let before = old(self).items@;
                    let after = self.items@;
                    assert(after =~= before.remove(at as int));
                    assert forall|k: K| after.to_set().contains(k) == before.to_set().remove(
                        key,
                    ).contains(k) by {
                        if before.contains(k) && k != key {
                            let i = choose|i: int| 0 <= i < before.len() && before[i] == k;
                            assert(after[if i < at { i } else { i - 1 }] == k);
                        }
                        if after.contains(k) {
                            let i = choose|i: int| 0 <= i < after.len() && after[i] == k;
                            assert(before[if i < at { i } else { i + 1 }] == k);
                        }
                    }
                    assert(after.to_set() =~= before.to_set().remove(key));
                }
                true
            },
            None => {
                assert(self@ =~= old(self)@.remove(key));
                false
            },
        }
    }
}

proof fn lemma_map_entry<K, V>(entries: Seq<(K, V)>, i: int)
    requires
        forall|i: int, j: int|
            0 <= i < j < entries.len() ==> (#[trigger] entries[i]).0 != (#[trigger] entries[j]).0,
        0 <= i < entries.len(),
    ensures
        map_of(entries).contains_key(entries[i].0),
        map_of(entries)[entries[i].0] == entries[i].1,
{
    let key = entries[i].0;
    let j = choose|j: int| 0 <= j < entries.len() && (#[trigger] entries[j]).0 == key;
    assert(entries[i].0 == key);
    if i < j {
        assert(entries[i].0 != entries[j].0);
    } else if j < i {
        assert(entries[j].0 != entries[i].0);
    }
}

proof fn lemma_update<K, V>(entries: Seq<(K, V)>, at: int, value: V)
    requires
        forall|i: int, j: int|
            0 <= i < j < entries.len() ==> (#[trigger] entries[i]).0 != (#[trigger] entries[j]).0,
        0 <= at < entries.len(),
    ensures
        map_of(entries.update(at, (entries[at].0, value))) == map_of(entries).insert(
            entries[at].0,
            value,
        ),
{
    let after = entries.update(at, (entries[at].0, value));
    let expected = map_of(entries).insert(entries[at].0, value);
    assert forall|key: K| map_of(after).contains_key(key) == expected.contains_key(key) by {
        if map_of(after).contains_key(key) {
            let i = choose|i: int| 0 <= i < after.len() && (#[trigger] after[i]).0 == key;
            assert(entries[i].0 == key);
        }
        if map_of(entries).contains_key(key) {
            let i = choose|i: int| 0 <= i < entries.len() && (#[trigger] entries[i]).0 == key;
            assert(after[i].0 == key);
        }
        if key == entries[at].0 {
            assert(after[at].0 == key);
        }
    }
    assert forall|key: K| map_of(after).contains_key(key) implies map_of(after)[key]
        == expected[key] by {
        let i = choose|i: int| 0 <= i < after.len() && (#[trigger] after[i]).0 == key;
        lemma_map_entry(after, i);
        lemma_map_entry(entries, i);
        assert(entries[i].0 == key);
        if i != at && key == entries[at].0 {
            if i < at {
                assert(entries[i].0 != entries[at].0);
            } else {
                assert(entries[at].0 != entries[i].0);
            }
        }
    }
    assert(map_of(after) =~= expected);
}

proof fn lemma_append<K, V>(entries: Seq<(K, V)>, key: K, value: V)
    requires
        forall|i: int, j: int|
            0 <= i < j < entries.len() ==> (#[trigger] entries[i]).0 != (#[trigger] entries[j]).0,
        !map_of(entries).contains_key(key),
    ensures
        map_of(entries.push((key, value))) == map_of(entries).insert(key, value),
        forall|i: int, j: int|
            0 <= i < j < entries.len() + 1 ==> (#[trigger] entries.push((key, value))[i]).0 != (
            #[trigger] entries.push((key, value))[j]).0,
{
    let after = entries.push((key, value));
    let expected = map_of(entries).insert(key, value);
    assert forall|i: int, j: int| 0 <= i < j < after.len() implies (#[trigger] after[i]).0 != (
    #[trigger] after[j]).0 by {
        assert(after[i] == entries[i]);
        if j == entries.len() {
            assert(entries[i].0 != key);
        } else {
            assert(after[j] == entries[j]);
        }
    }
    assert forall|other: K| map_of(after).contains_key(other) == expected.contains_key(other) by {
        if map_of(after).contains_key(other) {
            let i = choose|i: int| 0 <= i < after.len() && (#[trigger] after[i]).0 == other;
            if i < entries.len() {
                assert(entries[i].0 == other);
            }
        }
        if map_of(entries).contains_key(other) {
            let i = choose|i: int| 0 <= i < entries.len() && (#[trigger] entries[i]).0 == other;
            assert(after[i].0 == other);
        }
        if other == key {
            assert(after[entries.len() as int].0 == other);
        }
    }
    assert forall|other: K| map_of(after).contains_key(other) implies map_of(after)[other]
        == expected[other] by {
        let i = choose|i: int| 0 <= i < after.len() && (#[trigger] after[i]).0 == other;
        lemma_map_entry(after, i);
        if i < entries.len() {
            lemma_map_entry(entries, i);
            assert(after[i] == entries[i]);
        }
    }
    assert(map_of(after) =~= expected);
}

proof fn lemma_take_out<K, V>(entries: Seq<(K, V)>, at: int)
    requires
        forall|i: int, j: int|
            0 <= i < j < entries.len() ==> (#[trigger] entries[i]).0 != (#[trigger] entries[j]).0,
        0 <= at < entries.len(),
    ensures
        map_of(entries.remove(at)) == map_of(entries).remove(entries[at].0),
        forall|i: int, j: int|
            0 <= i < j < entries.len() - 1 ==> (#[trigger] entries.remove(at)[i]).0 != (
            #[trigger] entries.remove(at)[j]).0,
{
    let after = entries.remove(at);
    let expected = map_of(entries).remove(entries[at].0);
    assert forall|i: int, j: int| 0 <= i < j < after.len() implies (#[trigger] after[i]).0 != (
    #[trigger] after[j]).0 by {
        let x = if i < at { i } else { i + 1 };
        let y = if j < at { j } else { j + 1 };
        assert(after[i] == entries[x]);
        assert(after[j] == entries[y]);
    }
    assert forall|key: K| map_of(after).contains_key(key) == expected.contains_key(key) by {
        if map_of(after).contains_key(key) {
            let i = choose|i: int| 0 <= i < after.len() && (#[trigger] after[i]).0 == key;
            let x = if i < at { i } else { i + 1 };
            assert(entries[x].0 == key);
            if x < at {
                assert(entries[x].0 != entries[at].0);
            } else {
                assert(entries[at].0 != entries[x].0);
            }
        }
        if map_of(entries).contains_key(key) && key != entries[at].0 {
            let i = choose|i: int| 0 <= i < entries.len() && (#[trigger] entries[i]).0 == key;
            assert(after[if i < at { i } else { i - 1 }].0 == key);
        }
    }
    assert forall|key: K| map_of(after).contains_key(key) implies map_of(after)[key]
        == expected[key] by {
        let i = choose|i: int| 0 <= i < after.len() && (#[trigger] after[i]).0 == key;
        let x = if i < at { i } else { i + 1 };
        lemma_map_entry(after, i);
        lemma_map_entry(entries, x);
        assert(after[i] == entries[x]);
    }
    assert(map_of(after) =~= expected);
}

} // verus!
