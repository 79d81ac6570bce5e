//! Byte-lexicographic order and sets kept in that order.

use vstd::prelude::*;

verus! {

/// `a` comes before `b` in byte-lexicographic order, or is equal to it.
pub open spec fn lex_le(a: Seq<u8>, b: Seq<u8>) -> bool
    decreases a.len(),
{
    if a.len() == 0 {
        true
    } else if b.len() == 0 {
        false
    } else if a[0] != b[0] {
        a[0] < b[0]
    } else {
        lex_le(a.drop_first(), b.drop_first())
    }
}

/// Every byte sequence is ordered with every other.
pub proof fn lemma_lex_total(a: Seq<u8>, b: Seq<u8>)
    ensures
        lex_le(a, b) || lex_le(b, a),
    decreases a.len(),
{
    if a.len() > 0 && b.len() > 0 && a[0] == b[0] {
        lemma_lex_total(a.drop_first(), b.drop_first());
    }
}

/// The order is transitive.
pub proof fn lemma_lex_transitive(a: Seq<u8>, b: Seq<u8>, c: Seq<u8>)
    requires
        lex_le(a, b),
        lex_le(b, c),
    ensures
        lex_le(a, c),
    decreases a.len(),
{
    if a.len() > 0 && b.len() > 0 && c.len() > 0 && a[0] == b[0] && b[0] == c[0] {
        lemma_lex_transitive(a.drop_first(), b.drop_first(), c.drop_first());
    }
}

/// Two sequences that are each at or before the other are equal.
pub proof fn lemma_lex_antisymmetric(a: Seq<u8>, b: Seq<u8>)
    requires
        lex_le(a, b),
        lex_le(b, a),
    ensures
        a == b,
    decreases a.len(),
{
    if a.len() > 0 && b.len() > 0 {
        lemma_lex_antisymmetric(a.drop_first(), b.drop_first());
        assert(a =~= seq![a[0]] + a.drop_first());
        assert(b =~= seq![b[0]] + b.drop_first());
    }
    assert(a =~= b);
}

/// Compares two byte strings.
pub fn bytes_le(a: &[u8], b: &[u8]) -> (result: bool)
    ensures
        result == lex_le(a@, b@),
{
    let mut i: usize = 0;
    assert(a@.skip(0) =~= a@);
    assert(b@.skip(0) =~= b@);
    while i < a.len() && i < b.len() && a[i] == b[i]
        invariant
            0 <= i <= a@.len(),
            i <= b@.len(),
            lex_le(a@, b@) == lex_le(a@.skip(i as int), b@.skip(i as int)),
        decreases a@.len() - i,
    {
        assert(a@.skip(i as int).drop_first() =~= a@.skip(i + 1));
        assert(b@.skip(i as int).drop_first() =~= b@.skip(i + 1));
        i += 1;
    }
    if i == a.len() {
        true
    } else if i == b.len() {
        false
    } else {
        a[i] < b[i]
    }
}

/// Values that a set can order by a byte string and tell apart.
pub trait Ranked: Sized {
    /// What the value is, for contracts.
    type Model;

    spec fn model(&self) -> Self::Model;

    /// The byte string by which a value is ordered.
    spec fn rank_of(model: Self::Model) -> Seq<u8>;

    fn rank(&self) -> (bytes: Vec<u8>)
        ensures
            bytes@ == Self::rank_of(self.model()),
    ;

    fn same(&self, other: &Self) -> (result: bool)
        ensures
            result == (self.model() == other.model()),
    ;

    fn duplicate(&self) -> (copy: Self)
        ensures
            copy.model() == self.model(),
    ;
}

/// The models of a sequence of values.
pub open spec fn models<T: Ranked>(items: Seq<T>) -> Seq<T::Model> {
    items.map_values(|item: T| item.model())
}

/// No model occurs twice.
pub open spec fn distinct<M>(items: Seq<M>) -> bool {
    forall|i: int, j: int| 0 <= i < j < items.len() ==> items[i] != items[j]
}

/// The models stand in the order of their ranks.
pub open spec fn in_rank_order<T: Ranked>(items: Seq<T::Model>) -> bool {
    forall|i: int, j: int|
        0 <= i <= j < items.len() ==> lex_le(
            #[trigger] T::rank_of(items[i]),
            #[trigger] T::rank_of(items[j]),
        )
}

/// A set of values, kept in rank order, in which nothing occurs twice.
pub struct OrderedSet<T: Ranked> {
    items: Vec<T>,
}

impl<T: Ranked> OrderedSet<T> {
    /// The members in their order.
    pub closed spec fn seq(&self) -> Seq<T::Model> {
        models(self.items@)
    }

    /// The members.
    pub open spec fn view(&self) -> Set<T::Model> {
        self.seq().to_set()
    }

    pub open spec fn wf(&self) -> bool {
        &&& distinct(self.seq())
        &&& in_rank_order::<T>(self.seq())
    }

    pub fn new() -> (set: Self)
        ensures
            set.wf(),
            set@ == Set::<T::Model>::empty(),
            set.seq() == Seq::<T::Model>::empty(),
    {
        let set = OrderedSet { items: Vec::new() };
        assert(set.seq() =~= Seq::empty());
        assert(set@ =~= Set::empty());
        set
    }

    pub fn len(&self) -> (n: usize)
        requires
            self.wf(),
        ensures
            n == self.seq().len(),
            n == self@.len(),
            self@.finite(),
    {
        proof {
            lemma_distinct_len(self.seq());
        }
        self.items.len()
    }

    pub fn is_empty(&self) -> (result: bool)
        ensures
            result == (self.seq().len() == 0),
            result == (self@ == Set::<T::Model>::empty()),
    {
        proof {
            if self.items@.len() > 0 {
                assert(self.seq()[0] == self.items@[0].model());
                assert(self@.contains(self.seq()[0]));
            } else {
                assert(self@ =~= Set::empty());
            }
        }
        self.items.len() == 0
    }

    pub fn get(&self, index: usize) -> (item: &T)
        requires
            index < self.seq().len(),
        ensures
            item.model() == self.seq()[index as int],
            self@.contains(item.model()),
    {
        assert(self.seq()[index as int] == self.items@[index as int].model());
        &self.items[index]
    }

    pub fn contains(&self, value: &T) -> (result: bool)
        ensures
            result == self@.contains(value.model()),
    {
        let mut i: usize = 0;
        while i < self.items.len()
            invariant
                i <= self.items@.len(),
                forall|k: int| 0 <= k < i ==> #[trigger] self.seq()[k] != value.model(),
            decreases self.items@.len() - i,
        {
            if self.items[i].same(value) {
                assert(self.seq()[i as int] == value.model());
                return true;
            }
            i += 1;
        }
        false
    }

    /// Adds a value; says whether it was new.
    pub fn insert(&mut self, value: T) -> (added: bool)
        requires
            old(self).wf(),
        ensures
            final(self).wf(),
            final(self)@ == old(self)@.insert(value.model()),
            added == !old(self)@.contains(value.model()),
            !added ==> final(self).seq() == old(self).seq(),
    {
        let ghost before = self.seq();
        let ghost model = value.model();
        if self.contains(&value) {
            assert(self@ =~= old(self)@.insert(model));
            return false;
        }
        let rank = value.rank();
        let mut at: usize = 0;
        let mut placed: bool = false;
        while at < self.items.len() && !placed
            invariant
                self.seq() == before,
                at <= self.items@.len(),
                rank@ == T::rank_of(model),
                forall|k: int|
                    0 <= k < at ==> lex_le(#[trigger] T::rank_of(before[k]), T::rank_of(model)),
                placed ==> at < self.items@.len() && lex_le(
                    T::rank_of(model),
                    T::rank_of(before[at as int]),
                ),
            decreases self.items@.len() - at + (if placed { 0int } else { 1 }),
        {
            let here = self.items[at].rank();
            if bytes_le(here.as_slice(), rank.as_slice()) {
                at += 1;
            } else {
                proof {
                    lemma_lex_total(T::rank_of(before[at as int]), T::rank_of(model));
                }
                placed = true;
            }
        }
        self.items.insert(at, value);
        proof {
            let after = self.seq();
            assert(after =~= before.insert(at as int, model));
            lemma_insert_keeps_order::<T>(before, at as int, model);
            lemma_insert_set(before, at as int, model);
        }
        true
    }

    /// Takes a value out; says whether it was there.
    pub fn remove(&mut self, value: &T) -> (removed: bool)
        requires
            old(self).wf(),
        ensures
            final(self).wf(),
            final(self)@ == old(self)@.remove(value.model()),
            removed == old(self)@.contains(value.model()),
    {
        let ghost before = self.seq();
        let mut i: usize = 0;
        while i < self.items.len()
            invariant
                i <= self.items@.len(),
                self.seq() == before,
                *self == *old(self),
                old(self).wf(),
                before == old(self).seq(),
                forall|k: int| 0 <= k < i ==> #[trigger] before[k] != value.model(),
            decreases self.items@.len() - i,
        {
            if self.items[i].same(value) {
                assert(before[i as int] == value.model());
                self.items.remove(i);
                proof {
                    let after = self.seq();
                    assert(after =~= before.remove(i as int));
                    lemma_remove_set(before, i as int);
                    assert forall|a: int, b: int| 0 <= a <= b < after.len() implies lex_le(
                        #[trigger] T::rank_of(after[a]),
                        #[trigger] T::rank_of(after[b]),
                    ) by {
                        let x = if a < i { a } else { a + 1 };
                        let y = if b < i { b } else { b + 1 };
                        assert(after[a] == before[x]);
                        assert(after[b] == before[y]);
                        assert(lex_le(T::rank_of(before[x]), T::rank_of(before[y])));
                    }
                }
                return true;
            }
            i += 1;
        }
        assert(self@ =~= old(self)@.remove(value.model()));
        false
    }

    /// Another set with the same members.
    pub fn duplicate(&self) -> (copy: Self)
        requires
            self.wf(),
        ensures
            copy.wf(),
            copy.seq() == self.seq(),
            copy@ == self@,
    {
        let mut items: Vec<T> = Vec::new();
        let mut i: usize = 0;
        while i < self.items.len()
            invariant
                i <= self.items@.len(),
                items@.len() == i,
                forall|k: int| 0 <= k < i ==> #[trigger] items@[k].model() == self.items@[k].model(),
            decreases self.items@.len() - i,
        {
            items.push(self.items[i].duplicate());
            i += 1;
        }
        let copy = OrderedSet { items };
        assert(copy.seq() =~= self.seq());
        copy
    }

    /// Adds every member of another set.
    pub fn union_with(&mut self, other: &Self)
        requires
            old(self).wf(),
            other.wf(),
        ensures
            final(self).wf(),
            final(self)@ == old(self)@.union(other@),
    {
        let ghost start = self@;
        let mut i: usize = 0;
        while i < other.items.len()
            invariant
                i <= other.items@.len(),
                self.wf(),
                start == old(self)@,
                self@ == start.union(other.seq().take(i as int).to_set()),
            decreases other.items@.len() - i,
        {
            self.insert(other.items[i].duplicate());
            proof {
                let taken = other.seq().take(i as int);
                let next = other.seq().take(i + 1);
                assert(next =~= taken.push(other.seq()[i as int]));
                lemma_push_set(taken, other.seq()[i as int]);
                assert(self@ =~= start.union(next.to_set()));
            }
            i += 1;
        }
        assert(other.seq().take(i as int) =~= other.seq());
        assert(other.seq().take(0) =~= Seq::empty());
    }

    /// The members in their order, as a list.
    pub fn to_vec(&self) -> (list: Vec<T>)
        ensures
            models(list@) == self.seq(),
    {
        let mut items: Vec<T> = Vec::new();
        let mut i: usize = 0;
        while i < self.items.len()
            invariant
                i <= self.items@.len(),
                items@.len() == i,
                forall|k: int| 0 <= k < i ==> #[trigger] items@[k].model() == self.items@[k].model(),
            decreases self.items@.len() - i,
        {
            items.push(self.items[i].duplicate());
            i += 1;
        }
        assert(models(items@) =~= self.seq());
        items
    }
}

/// Pushing one item adds it to the set of items.
pub proof fn lemma_push_set<M>(items: Seq<M>, item: M)
    ensures
        items.push(item).to_set() == items.to_set().insert(item),
{
    let pushed = items.push(item);
    assert forall|m: M| pushed.to_set().contains(m) == items.to_set().insert(item).contains(m) by {
        if items.to_set().contains(m) {
            let k = choose|k: int| 0 <= k < items.len() && items[k] == m;
            assert(pushed[k] == m);
        }
        if m == item {
            assert(pushed[items.len() as int] == m);
        }
        if pushed.contains(m) {
            let k = choose|k: int| 0 <= k < pushed.len() && pushed[k] == m;
            if k < items.len() {
                assert(items[k] == m);
            }
        }
    }
    assert(pushed.to_set() =~= items.to_set().insert(item));
}

proof fn lemma_insert_set<M>(items: Seq<M>, at: int, item: M)
    requires
        0 <= at <= items.len(),
    ensures
        items.insert(at, item).to_set() == items.to_set().insert(item),
{
    let after = items.insert(at, item);
    assert forall|m: M| after.to_set().contains(m) == items.to_set().insert(item).contains(m) by {
        if items.contains(m) {
            let k = choose|k: int| 0 <= k < items.len() && items[k] == m;
            assert(after[if k < at { k } else { k + 1 }] == m);
        }
        if m == item {
            assert(after[at] == m);
        }
        if after.contains(m) {
            let k = choose|k: int| 0 <= k < after.len() && after[k] == m;
            if k < at {
                assert(items[k] == m);
            } else if k > at {
                assert(items[k - 1] == m);
            }
        }
    }
    assert(after.to_set() =~= items.to_set().insert(item));
}

proof fn lemma_remove_set<M>(items: Seq<M>, at: int)
    requires
        0 <= at < items.len(),
        distinct(items),
    ensures
        items.remove(at).to_set() == items.to_set().remove(items[at]),
        distinct(items.remove(at)),
{
    let after = items.remove(at);
    assert forall|m: M| after.to_set().contains(m) == items.to_set().remove(
        items[at],
    ).contains(m) by {
        if items.contains(m) && m != items[at] {
            let k = choose|k: int| 0 <= k < items.len() && items[k] == m;
            assert(after[if k < at { k } else { k - 1 }] == m);
        }
        if after.contains(m) {
            let k = choose|k: int| 0 <= k < after.len() && after[k] == m;
            if k < at {
                assert(items[k] == m);
            } else {
                assert(items[k + 1] == m);
            }
        }
    }
    assert(after.to_set() =~= items.to_set().remove(items[at]));
}

/// A sequence without repetition has as many members as places.
pub proof fn lemma_distinct_len<M>(items: Seq<M>)
    requires
        distinct(items),
    ensures
        items.to_set().finite(),
        items.to_set().len() == items.len(),
{
    assert(items.no_duplicates()) by {
        assert forall|i: int, j: int|
            0 <= i < items.len() && 0 <= j < items.len() && i != j implies items[i] != items[j] by {
            if i < j {
                assert(items[i] != items[j]);
            } else {
                assert(items[j] != items[i]);
            }
        }
    }
    items.unique_seq_to_set();
}

proof fn lemma_insert_keeps_order<T: Ranked>(items: Seq<T::Model>, at: int, item: T::Model)
    requires
        0 <= at <= items.len(),
        distinct(items),
        in_rank_order::<T>(items),
        !items.contains(item),
        forall|k: int| 0 <= k < at ==> lex_le(#[trigger] T::rank_of(items[k]), T::rank_of(item)),
        at < items.len() ==> lex_le(T::rank_of(item), T::rank_of(items[at])),
    ensures
        distinct(items.insert(at, item)),
        in_rank_order::<T>(items.insert(at, item)),
{
    let after = items.insert(at, item);
    assert forall|i: int, j: int| 0 <= i < j < after.len() implies after[i] != after[j] by {
        let x = if i < at { i } else { i - 1 };
        let y = if j < at { j } else { j - 1 };
        if i == at {
            assert(after[j] == items[y]);
        } else if j == at {
            assert(after[i] == items[x]);
        } else {
            assert(after[i] == items[x]);
            assert(after[j] == items[y]);
        }
    }
    assert forall|i: int, j: int| 0 <= i <= j < after.len() implies lex_le(
        #[trigger] T::rank_of(after[i]),
        #[trigger] T::rank_of(after[j]),
    ) by {
        let x = if i < at { i } else { i - 1 };
        let y = if j < at { j } else { j - 1 };
        if i == at && j == at {
            lemma_lex_total(T::rank_of(item), T::rank_of(item));
        } else if i == at {
            assert(after[j] == items[y]);
            assert(lex_le(T::rank_of(items[at]), T::rank_of(items[y])));
            lemma_lex_transitive(
                T::rank_of(item),
                T::rank_of(items[at]),
                T::rank_of(items[y]),
            );
        } else if j == at {
            assert(after[i] == items[x]);
            assert(lex_le(T::rank_of(items[x]), T::rank_of(item)));
        } else {
            assert(after[i] == items[x]);
            assert(after[j] == items[y]);
            assert(lex_le(T::rank_of(items[x]), T::rank_of(items[y])));
        }
    }
}

/// No two models have the same rank.
pub open spec fn rank_tells_apart<T: Ranked>() -> bool {
    forall|a: T::Model, b: T::Model| #[trigger] T::rank_of(a) == #[trigger] T::rank_of(b) ==> a == b
}

/// The members of a set in rank order.
pub open spec fn sorted_list<T: Ranked>(set: Set<T::Model>) -> Seq<T::Model> {
    choose|list: Seq<T::Model>|
        distinct(list) && in_rank_order::<T>(list) && #[trigger] list.to_set() == set
}

/// Where the rank tells values apart, there is one way to list a set in rank
/// order.
pub proof fn lemma_sorted_unique<T: Ranked>(a: Seq<T::Model>, b: Seq<T::Model>)
    requires
        rank_tells_apart::<T>(),
        distinct(a),
        distinct(b),
        in_rank_order::<T>(a),
        in_rank_order::<T>(b),
        a.to_set() == b.to_set(),
    ensures
        a == b,
    decreases a.len(),
{
    lemma_distinct_len(a);
    lemma_distinct_len(b);
    assert(a.len() == b.len());
    if a.len() > 0 {
        assert(a.to_set().contains(a[0]));
        assert(b.to_set().contains(b[0]));
        let i = choose|i: int| 0 <= i < b.len() && b[i] == a[0];
        let j = choose|j: int| 0 <= j < a.len() && a[j] == b[0];
        assert(lex_le(T::rank_of(b[0]), T::rank_of(b[i])));
        assert(lex_le(T::rank_of(a[0]), T::rank_of(a[j])));
        lemma_lex_antisymmetric(T::rank_of(a[0]), T::rank_of(b[0]));
        assert(a[0] == b[0]);
        let x = a.remove(0);
        let y = b.remove(0);
        lemma_remove_set(a, 0);
        lemma_remove_set(b, 0);
        assert forall|p: int, q: int| 0 <= p <= q < x.len() implies lex_le(
            #[trigger] T::rank_of(x[p]),
            #[trigger] T::rank_of(x[q]),
        ) by {
            assert(x[p] == a[p + 1] && x[q] == a[q + 1]);
            assert(lex_le(T::rank_of(a[p + 1]), T::rank_of(a[q + 1])));
        }
        assert forall|p: int, q: int| 0 <= p <= q < y.len() implies lex_le(
            #[trigger] T::rank_of(y[p]),
            #[trigger] T::rank_of(y[q]),
        ) by {
            assert(y[p] == b[p + 1] && y[q] == b[q + 1]);
            assert(lex_le(T::rank_of(b[p + 1]), T::rank_of(b[q + 1])));
        }
        lemma_sorted_unique::<T>(x, y);
        assert(a =~= seq![a[0]] + x);
        assert(b =~= seq![b[0]] + y);
    } else {
        assert(a =~= b);
    }
}

impl<T: Ranked> OrderedSet<T> {
    /// The set lists its members in the one rank order there is.
    pub proof fn lemma_sorted(&self)
        requires
            self.wf(),
            rank_tells_apart::<T>(),
        ensures
            self.seq() == sorted_list::<T>(self@),
    {
        let list = sorted_list::<T>(self@);
        assert(self.seq().to_set() == self@);
        lemma_sorted_unique::<T>(self.seq(), list);
    }
}

proof fn lemma_place<T: Ranked>(list: Seq<T::Model>, item: T::Model) -> (at: int)
    requires
        in_rank_order::<T>(list),
    ensures
        0 <= at <= list.len(),
        forall|k: int| 0 <= k < at ==> lex_le(#[trigger] T::rank_of(list[k]), T::rank_of(item)),
        at < list.len() ==> lex_le(T::rank_of(item), T::rank_of(list[at])),
    decreases list.len(),
{
    if list.len() == 0 {
        0
    } else {
        let head = list.drop_last();
        assert(in_rank_order::<T>(head)) by {
            assert forall|i: int, j: int| 0 <= i <= j < head.len() implies lex_le(
                #[trigger] T::rank_of(head[i]),
                #[trigger] T::rank_of(head[j]),
            ) by {
                assert(lex_le(T::rank_of(list[i]), T::rank_of(list[j])));
            }
        }
        let at = lemma_place::<T>(head, item);
        assert forall|k: int| 0 <= k < at implies lex_le(
            #[trigger] T::rank_of(list[k]),
            T::rank_of(item),
        ) by {
            assert(lex_le(T::rank_of(head[k]), T::rank_of(item)));
        }
        if at < head.len() {
            at
        } else {
            lemma_lex_total(T::rank_of(list.last()), T::rank_of(item));
            if lex_le(T::rank_of(item), T::rank_of(list.last())) {
                at
            } else {
                at + 1
            }
        }
    }
}

/// Every finite set can be listed in rank order.
pub proof fn lemma_sorted_exists<T: Ranked>(set: Set<T::Model>)
    requires
        set.finite(),
    ensures
        distinct(sorted_list::<T>(set)),
        in_rank_order::<T>(sorted_list::<T>(set)),
        sorted_list::<T>(set).to_set() == set,
    decreases set.len(),
{
    if set.len() == 0 {
        let list = Seq::<T::Model>::empty();
        assert(list.to_set() =~= set);
    } else {
        let item = set.choose();
        let rest = set.remove(item);
        lemma_sorted_exists::<T>(rest);
        let list = sorted_list::<T>(rest);
        assert(!list.contains(item)) by {
            assert(list.to_set() == rest);
            if list.contains(item) {
                assert(list.to_set().contains(item));
            }
        }
        let at = lemma_place::<T>(list, item);
        lemma_insert_keeps_order::<T>(list, at, item);
        lemma_insert_set(list, at, item);
        assert(rest.insert(item) =~= set);
        let whole = list.insert(at, item);
        assert(distinct(whole) && in_rank_order::<T>(whole) && whole.to_set() == set);
    }
}

/// The bytes of a text tell it apart from every other.
pub proof fn lemma_text_rank_tells_apart()
    ensures
        rank_tells_apart::<String>(),
{
    assert forall|a: Seq<char>, b: Seq<char>| #[trigger] String::rank_of(a)
        == #[trigger] String::rank_of(b) implies a == b by {
        vstd::utf8::encode_utf8_decode_utf8(a);
        vstd::utf8::encode_utf8_decode_utf8(b);
    }
}

/// The bytes of a number, most significant first.
pub open spec fn big_endian(n: nat, width: nat) -> Seq<u8>
    decreases width,
{
    if width == 0 {
        Seq::empty()
    } else {
        big_endian(n / 256, (width - 1) as nat).push((n % 256) as u8)
    }
}

/// How many numbers so many bytes hold.
pub open spec fn byte_range(width: nat) -> nat
    decreases width,
{
    if width == 0 {
        1
    } else {
        256 * byte_range((width - 1) as nat)
    }
}

proof fn lemma_lex_push(a: Seq<u8>, b: Seq<u8>, x: u8, y: u8)
    requires
        a.len() == b.len(),
    ensures
        lex_le(a.push(x), b.push(y)) == (if a == b {
            x <= y
        } else {
            lex_le(a, b)
        }),
    decreases a.len(),
{
    let p = a.push(x);
    let q = b.push(y);
    if a.len() == 0 {
        assert(a =~= b);
        reveal_with_fuel(lex_le, 2);
    } else {
        assert(p[0] == a[0] && q[0] == b[0]);
        if a[0] == b[0] {
            assert(p.drop_first() =~= a.drop_first().push(x));
            assert(q.drop_first() =~= b.drop_first().push(y));
            lemma_lex_push(a.drop_first(), b.drop_first(), x, y);
            if a.drop_first() == b.drop_first() {
                assert(a =~= seq![a[0]] + a.drop_first());
                assert(b =~= seq![b[0]] + b.drop_first());
            }
        }
    }
}

proof fn lemma_big_endian_len(n: nat, width: nat)
    ensures
        big_endian(n, width).len() == width,
    decreases width,
{
    if width > 0 {
        lemma_big_endian_len(n / 256, (width - 1) as nat);
    }
}

/// The bytes of numbers are ordered as the numbers are.
pub proof fn lemma_big_endian_order(a: nat, b: nat, width: nat)
    requires
        a < byte_range(width),
        b < byte_range(width),
    ensures
        lex_le(big_endian(a, width), big_endian(b, width)) == (a <= b),
        big_endian(a, width) == big_endian(b, width) ==> a == b,
    decreases width,
{
    if width > 0 {
        let w = (width - 1) as nat;
        let x = big_endian(a / 256, w);
        let y = big_endian(b / 256, w);
        lemma_big_endian_len(a / 256, w);
        lemma_big_endian_len(b / 256, w);
        lemma_big_endian_order(a / 256, b / 256, w);
        lemma_lex_push(x, y, (a % 256) as u8, (b % 256) as u8);
        if big_endian(a, width) == big_endian(b, width) {
            assert(x =~= big_endian(a, width).drop_last());
            assert(y =~= big_endian(b, width).drop_last());
            assert(big_endian(a, width).last() == big_endian(b, width).last());
        }
    } else {
        assert(byte_range(0) == 1);
    }
}

fn long_bytes(n: u128, width: u8) -> (bytes: Vec<u8>)
    ensures
        bytes@ == big_endian(n as nat, width as nat),
    decreases width,
{
    if width == 0 {
        Vec::new()
    } else {
        let mut bytes = long_bytes(n / 256, width - 1);
        bytes.push((n % 256) as u8);
        bytes
    }
}

/// A number orders by its bytes, most significant first, which is its size.
impl Ranked for u64 {
    type Model = u64;

    open spec fn model(&self) -> u64 {
        *self
    }

    open spec fn rank_of(model: u64) -> Seq<u8> {
        big_endian(model as nat, 8)
    }

    fn rank(&self) -> (bytes: Vec<u8>) {
        let bytes = long_bytes(*self as u128, 8);
        assert(Self::rank_of(self.model()) == big_endian(*self as nat, 8));
        bytes
    }

    fn same(&self, other: &Self) -> (result: bool) {
        *self == *other
    }

    fn duplicate(&self) -> (copy: Self) {
        *self
    }
}

/// The rank of a number tells it apart from every other.
pub proof fn lemma_number_rank_tells_apart()
    ensures
        rank_tells_apart::<u64>(),
{
    reveal_with_fuel(byte_range, 9);
    assert forall|a: u64, b: u64| #[trigger] u64::rank_of(a) == #[trigger] u64::rank_of(
        b,
    ) implies a == b by {
        lemma_big_endian_order(a as nat, b as nat, 8);
    }
}

/// The members of a set of numbers, from the smallest on, go up.
pub proof fn lemma_numbers_go_up(set: Set<u64>, i: int, j: int)
    requires
        set.finite(),
        0 <= i < j < sorted_numbers(set).len(),
    ensures
        sorted_numbers(set)[i] < sorted_numbers(set)[j],
{
    reveal_with_fuel(byte_range, 9);
    lemma_sorted_exists::<u64>(set);
    let list = sorted_numbers(set);
    lemma_big_endian_order(list[i] as nat, list[j] as nat, 8);
    assert(lex_le(u64::rank_of(list[i]), u64::rank_of(list[j])));
}

/// The members of a set of numbers in their order.
pub open spec fn sorted_numbers(set: Set<u64>) -> Seq<u64> {
    sorted_list::<u64>(set)
}

/// Puts numbers in order.
pub fn sort_numbers(numbers: &Vec<u64>) -> (sorted: Vec<u64>)
    ensures
        sorted@ == sorted_numbers(numbers@.to_set()),
        sorted@.to_set() == numbers@.to_set(),
        distinct(sorted@),
{
    proof {
        lemma_number_rank_tells_apart();
    }
    let sorted = sort_ranked(numbers);
    assert(models(sorted@) =~= sorted@);
    assert(models(numbers@) =~= numbers@);
    sorted
}

/// A number orders by its bytes, most significant first, which is its size.
impl Ranked for u128 {
    type Model = u128;

    open spec fn model(&self) -> u128 {
        *self
    }

    open spec fn rank_of(model: u128) -> Seq<u8> {
        big_endian(model as nat, 16)
    }

    fn rank(&self) -> (bytes: Vec<u8>) {
        let bytes = long_bytes(*self, 16);
        assert(Self::rank_of(self.model()) == big_endian(*self as nat, 16));
        bytes
    }

    fn same(&self, other: &Self) -> (result: bool) {
        *self == *other
    }

    fn duplicate(&self) -> (copy: Self) {
        *self
    }
}

/// The rank of a number tells it apart from every other.
pub proof fn lemma_scope_rank_tells_apart()
    ensures
        rank_tells_apart::<u128>(),
{
    reveal_with_fuel(byte_range, 17);
    assert forall|a: u128, b: u128| #[trigger] u128::rank_of(a) == #[trigger] u128::rank_of(
        b,
    ) implies a == b by {
        lemma_big_endian_order(a as nat, b as nat, 16);
    }
}

/// Puts values in rank order, without repetition.
pub fn sort_ranked<T: Ranked>(values: &Vec<T>) -> (sorted: Vec<T>)
    requires
        rank_tells_apart::<T>(),
    ensures
        models(sorted@) == sorted_list::<T>(models(values@).to_set()),
        models(sorted@).to_set() == models(values@).to_set(),
        distinct(models(sorted@)),
{
    let mut set: OrderedSet<T> = OrderedSet::new();
    let mut i: usize = 0;
    assert(set@ =~= models(values@).take(0).to_set());
    while i < values.len()
        invariant
            i <= values@.len(),
            set.wf(),
            set@ == models(values@).take(i as int).to_set(),
        decreases values@.len() - i,
    {
        let _ = set.insert(values[i].duplicate());
        proof {
            let taken = models(values@).take(i as int);
            assert(models(values@).take(i + 1) =~= taken.push(values@[i as int].model()));
            lemma_push_set(taken, values@[i as int].model());
        }
        i += 1;
    }
    assert(models(values@).take(i as int) =~= models(values@));
    proof {
        set.lemma_sorted();
    }
    set.to_vec()
}

/// Texts without repetition, in the order of their bytes.
pub type TextSet = OrderedSet<String>;

/// The members of a set of texts in the order of their bytes.
pub open spec fn sorted_texts(set: Set<Seq<char>>) -> Seq<Seq<char>> {
    sorted_list::<String>(set)
}

/// A text orders by its bytes.
impl Ranked for String {
    type Model = Seq<char>;

    open spec fn model(&self) -> Seq<char> {
        self@
    }

    open spec fn rank_of(model: Seq<char>) -> Seq<u8> {
        vstd::utf8::encode_utf8(model)
    }

    fn rank(&self) -> (bytes: Vec<u8>) {
        let text = self.as_str().as_bytes();
        let mut bytes: Vec<u8> = Vec::new();
        let mut i: usize = 0;
        while i < text.len()
            invariant
                i <= text@.len(),
                bytes@ == text@.take(i as int),
            decreases text@.len() - i,
        {
            bytes.push(text[i]);
            assert(text@.take(i + 1) =~= text@.take(i as int).push(text@[i as int]));
            i += 1;
        }
        assert(text@.take(i as int) =~= text@);
        bytes
    }

    fn same(&self, other: &Self) -> (result: bool) {
        *self == *other
    }

    fn duplicate(&self) -> (copy: Self) {
        self.clone()
    }
}

} // verus!
