//! Identifiers of 32 and 16 bytes, and sorting by identifier.

use crate::address::same_bytes;
use crate::ordered::{bytes_le, lemma_lex_total, lemma_lex_transitive, lex_le};
use crate::table::Key;
use vstd::prelude::*;

verus! {

/// A hash, a public key, or another identifier of 32 bytes.
#[derive(Clone, Copy, Debug)]
pub struct Id32(pub [u8; 32]);

impl Id32 {
    pub open spec fn view(&self) -> Seq<u8> {
        self.0@
    }

    /// Whether two identifiers are the same.
    pub fn equals(&self, other: &Id32) -> (result: bool)
        ensures
            result == (*self == *other),
            result == (self@ == other@),
    {
        let result = same_bytes(self.0.as_slice(), other.0.as_slice());
        proof {
            if result {
                assert(self.0 =~= other.0);
            }
        }
        result
    }

    /// Whether one identifier comes before another or is the same.
    pub fn le(&self, other: &Id32) -> (result: bool)
        ensures
            result == lex_le(self@, other@),
    {
        bytes_le(self.0.as_slice(), other.0.as_slice())
    }
}

impl PartialEq for Id32 {
    fn eq(&self, other: &Self) -> (result: bool) {
        self.equals(other)
    }
}

impl vstd::std_specs::cmp::PartialEqSpecImpl for Id32 {
    open spec fn obeys_eq_spec() -> bool {
        true
    }

    open spec fn eq_spec(&self, other: &Self) -> bool {
        *self == *other
    }
}

impl Eq for Id32 {

}

impl Key for Id32 {
    fn same(self, other: Self) -> (result: bool) {
        self.equals(&other)
    }
}

/// Values that are sorted by an identifier.
pub trait Keyed: Sized {
    spec fn key(&self) -> Seq<u8>;

    fn key_le(&self, other: &Self) -> (result: bool)
        ensures
            result == lex_le(self.key(), other.key()),
    ;
}

impl Keyed for Id32 {
    open spec fn key(&self) -> Seq<u8> {
        self@
    }

    fn key_le(&self, other: &Self) -> (result: bool) {
        self.le(other)
    }
}

/// The place of an item in a list sorted by key: behind every item whose key
/// is not greater.
pub open spec fn sorted_place<T: Keyed>(list: Seq<T>, item: T) -> int
    decreases list.len(),
{
    if list.len() == 0 || lex_le(list.last().key(), item.key()) {
        list.len() as int
    } else {
        sorted_place(list.drop_last(), item)
    }
}

/// The items of a list sorted by key; items with the same key keep their
/// order.
pub open spec fn sorted_by_key<T: Keyed>(items: Seq<T>) -> Seq<T>
    decreases items.len(),
{
    if items.len() == 0 {
        items
    } else {
        let head = sorted_by_key(items.drop_last());
        head.insert(sorted_place(head, items.last()), items.last())
    }
}

/// The keys of a list do not go down.
pub open spec fn keys_sorted<T: Keyed>(list: Seq<T>) -> bool {
    forall|i: int, j: int|
        0 <= i <= j < list.len() ==> lex_le(
            (#[trigger] list[i]).key(),
            (#[trigger] list[j]).key(),
        )
}

proof fn lemma_sorted_place<T: Keyed>(list: Seq<T>, item: T)
    requires
        keys_sorted(list),
    ensures
        0 <= sorted_place(list, item) <= list.len(),
        forall|k: int| 0 <= k < sorted_place(list, item) ==> lex_le((#[trigger] list[k]).key(), item.key()),
        forall|k: int| sorted_place(list, item) <= k < list.len() ==> lex_le(item.key(), (#[trigger] list[k]).key()),
    decreases list.len(),
{
    if list.len() == 0 {
    } else if lex_le(list.last().key(), item.key()) {
        assert forall|k: int| 0 <= k < list.len() implies lex_le(
            (#[trigger] list[k]).key(),
            item.key(),
        ) by {
            assert(lex_le(list[k].key(), list[list.len() - 1].key()));
            lemma_lex_transitive(list[k].key(), list.last().key(), item.key());
        }
    } else {
        let head = list.drop_last();
        assert forall|i: int, j: int| 0 <= i <= j < head.len() implies lex_le(
            (#[trigger] head[i]).key(),
            (#[trigger] head[j]).key(),
        ) by {
            assert(lex_le(list[i].key(), list[j].key()));
        }
        lemma_sorted_place(head, item);
        lemma_lex_total(list.last().key(), item.key());
        assert forall|k: int| sorted_place(list, item) <= k < list.len() implies lex_le(
            item.key(),
            (#[trigger] list[k]).key(),
        ) by {
            if k < head.len() {
                assert(lex_le(item.key(), head[k].key()));
            }
        }
        assert forall|k: int| 0 <= k < sorted_place(list, item) implies lex_le(
            (#[trigger] list[k]).key(),
            item.key(),
        ) by {
            assert(lex_le(head[k].key(), item.key()));
        }
    }
}

/// Sorting by key keeps every item and leaves no key before a smaller one.
pub proof fn sorting_permutes_and_orders<T: Keyed>(items: Seq<T>)
    ensures
        sorted_by_key(items).len() == items.len(),
        sorted_by_key(items).to_multiset() == items.to_multiset(),
        keys_sorted(sorted_by_key(items)),
    decreases items.len(),
{
    broadcast use vstd::seq_lib::group_to_multiset_ensures;

    if items.len() > 0 {
        let before = items.drop_last();
        let item = items.last();
        sorting_permutes_and_orders(before);
        let head = sorted_by_key(before);
        lemma_sorted_place(head, item);
        let at = sorted_place(head, item);
        let whole = head.insert(at, item);
        assert(items =~= before.push(item));
        assert(whole.to_multiset() == head.to_multiset().insert(item)) by {
            vstd::seq_lib::to_multiset_insert(head, at, item);
        }
        assert(items.to_multiset() == before.to_multiset().insert(item));
        assert forall|i: int, j: int| 0 <= i <= j < whole.len() implies lex_le(
            (#[trigger] whole[i]).key(),
            (#[trigger] whole[j]).key(),
        ) by {
            let x = if i < at { i } else { i - 1 };
            let y = if j < at { j } else { j - 1 };
            if i == at && j == at {
                lemma_lex_total(item.key(), item.key());
            } else if i == at {
                assert(whole[j] == head[y]);
            } else if j == at {
                assert(whole[i] == head[x]);
            } else {
                assert(whole[i] == head[x] && whole[j] == head[y]);
                assert(lex_le(head[x].key(), head[y].key()));
            }
        }
    }
}

/// Puts an item at its place in a list sorted by key.
pub fn insert_by_key<T: Keyed>(list: &mut Vec<T>, item: T)
    ensures
        final(list)@ == old(list)@.insert(sorted_place(old(list)@, item), item),
        0 <= sorted_place(old(list)@, item) <= old(list)@.len(),
{
    let mut at: usize = list.len();
    assert(list@.take(at as int) =~= list@);
    while at > 0 && !list[at - 1].key_le(&item)
        invariant
            at <= list@.len(),
            list@ == old(list)@,
            sorted_place(list@, item) == sorted_place(list@.take(at as int), item),
        ensures
            at <= list@.len(),
            list@ == old(list)@,
            sorted_place(list@, item) == sorted_place(list@.take(at as int), item),
            at == 0 || lex_le(list@[at - 1].key(), item.key()),
        decreases at,
    {
        assert(list@.take(at as int).drop_last() =~= list@.take(at - 1));
        at -= 1;
    }
    assert(sorted_place(list@.take(at as int), item) == at);
    list.insert(at, item);
}

/// Sorts a list by key.
pub fn sort_by_key<T: Keyed>(items: Vec<T>) -> (sorted: Vec<T>)
    ensures
        sorted@ == sorted_by_key(items@),
{
    let mut remaining = items;
    let ghost all = items@;
    let mut reversed: Vec<T> = Vec::new();
    while remaining.len() > 0
        invariant
            remaining@.len() + reversed@.len() == all.len(),
            remaining@ == all.take(remaining@.len() as int),
            forall|k: int|
                0 <= k < reversed@.len() ==> #[trigger] reversed@[k] == all[all.len() - 1 - k],
        decreases remaining@.len(),
    {
        match remaining.pop() {
            Some(item) => {
                reversed.push(item);
            },
            None => {},
        }
        assert(remaining@ =~= all.take(remaining@.len() as int));
    }
    let mut sorted: Vec<T> = Vec::new();
    assert(all.take(0) =~= Seq::empty());
    assert(sorted@ =~= sorted_by_key(all.take(0)));
    while reversed.len() > 0
        invariant
            reversed@.len() <= all.len(),
            forall|k: int|
                0 <= k < reversed@.len() ==> #[trigger] reversed@[k] == all[all.len() - 1 - k],
            sorted@ == sorted_by_key(all.take(all.len() - reversed@.len())),
        decreases reversed@.len(),
    {
        let ghost n = all.len() - reversed@.len();
        match reversed.pop() {
            Some(item) => {
                proof {
                    assert(item == all[n]);
                    let next = all.take(n + 1);
                    assert(next.drop_last() =~= all.take(n));
                    assert(next.last() == item);
                }
                insert_by_key(&mut sorted, item);
            },
            None => {},
        }
    }
    assert(all.take(all.len() as int) =~= all);
    sorted
}

} // verus!
