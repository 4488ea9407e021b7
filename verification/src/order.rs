//! Ordered collections: items that are compared by a key, kept in vectors.

use vstd::prelude::*;

use crate::text;

verus! {

/// An item that is ordered by a key. The order of the keys is total and strict.
pub trait Keyed: Sized {
    type Key;

    /// The key of this item.
    spec fn key(&self) -> Self::Key;

    /// Whether the key `a` comes before the key `b`.
    spec fn precedes(a: Self::Key, b: Self::Key) -> bool;

    /// Whether this item comes before `other`.
    fn is_before(&self, other: &Self) -> (r: bool)
        ensures
            r == Self::precedes(self.key(), other.key()),
    ;

    /// Of two keys exactly one comes first, or they are equal.
    proof fn total(a: Self::Key, b: Self::Key)
        ensures
            Self::precedes(a, b) || Self::precedes(b, a) || a == b,
            !(Self::precedes(a, b) && Self::precedes(b, a)),
            a == b ==> !Self::precedes(a, b),
    ;

    /// The order goes through.
    proof fn transitive(a: Self::Key, b: Self::Key, c: Self::Key)
        requires
            Self::precedes(a, b),
            Self::precedes(b, c),
        ensures
            Self::precedes(a, c),
    ;
}

/// The keys of a list of items.
pub open spec fn keys<T: Keyed>(items: Seq<T>) -> Seq<T::Key> {
    items.map_values(|t: T| t.key())
}

/// Whether the keys of `items` rise strictly.
pub open spec fn rising<T: Keyed>(items: Seq<T>) -> bool {
    forall|i: int, j: int|
        0 <= i < j < items.len() ==> T::precedes(#[trigger] items[i].key(), #[trigger] items[j].key())
}

/// Whether no item of `items` comes before one that stands ahead of it.
pub open spec fn in_order<T: Keyed>(items: Seq<T>) -> bool {
    forall|i: int, j: int|
        0 <= i < j < items.len() ==> !T::precedes(#[trigger] items[j].key(), #[trigger] items[i].key())
}

/// Whether an item with the key `k` is among `items`.
pub open spec fn holds_key<T: Keyed>(items: Seq<T>, k: T::Key) -> bool {
    exists|i: int| 0 <= i < items.len() && #[trigger] items[i].key() == k
}

/// The keys that occur among `items`.
pub open spec fn key_set<T: Keyed>(items: Seq<T>) -> Set<T::Key> {
    Set::new(|k: T::Key| holds_key(items, k))
}

/// A set of items, held in rising order of their keys.
pub struct SortedSet<T: Keyed> {
    pub items: Vec<T>,
}

impl<T: Keyed> SortedSet<T> {
    /// The items rise strictly.
    pub open spec fn wf(&self) -> bool {
        rising(self.items@)
    }

    /// The keys that this set holds.
    pub open spec fn view(&self) -> Set<T::Key> {
        key_set(self.items@)
    }

    /// An empty set.
    pub fn new() -> (r: Self)
        ensures
            r.wf(),
            r@ == Set::<T::Key>::empty(),
            r.items@.len() == 0,
    {
        let r = SortedSet { items: Vec::new() };
        assert(r@ =~= Set::<T::Key>::empty());
        r
    }

    /// The first position whose item does not come before `item`.
    fn position(&self, item: &T) -> (r: usize)
        requires
            self.wf(),
        ensures
            r <= self.items@.len(),
            forall|k: int| 0 <= k < r ==> T::precedes(#[trigger] self.items@[k].key(), item.key()),
            forall|k: int|
                r <= k < self.items@.len() ==> !T::precedes(
                    #[trigger] self.items@[k].key(),
                    item.key(),
                ),
    {
        let mut i: usize = 0;
        while i < self.items.len() && self.items[i].is_before(item)
            invariant
                self.wf(),
                i <= self.items@.len(),
                forall|k: int|
                    0 <= k < i ==> T::precedes(#[trigger] self.items@[k].key(), item.key()),
            decreases self.items.len() - i,
        {
            i = i + 1;
        }
        proof {
            if i < self.items@.len() {
                assert forall|k: int| i <= k < self.items@.len() implies !T::precedes(
                    #[trigger] self.items@[k].key(),
                    item.key(),
                ) by {
                    if k > i && T::precedes(self.items@[k].key(), item.key()) {
                        T::transitive(
                            self.items@[i as int].key(),
                            self.items@[k].key(),
                            item.key(),
                        );
                    }
                }
            }
        }
        i
    }

    /// Whether an item with the key of `item` is in the set.
    pub fn contains(&self, item: &T) -> (r: bool)
        requires
            self.wf(),
        ensures
            r == self@.contains(item.key()),
    {
        let i = self.position(item);
        proof {
            T::total(item.key(), item.key());
            assert forall|k: int|
                0 <= k < self.items@.len() && #[trigger] self.items@[k].key() == item.key()
            implies k == i by {
                if k > i {
                    assert(T::precedes(self.items@[i as int].key(), self.items@[k].key()));
                }
            }
            if i < self.items@.len() {
                T::total(item.key(), self.items@[i as int].key());
            }
        }
        i < self.items.len() && !item.is_before(&self.items[i])
    }

    /// Adds `item`, unless an item with its key is there. Says whether it was added.
    pub fn insert(&mut self, item: T) -> (r: bool)
        requires
            old(self).wf(),
        ensures
            final(self).wf(),
            final(self)@ == old(self)@.insert(item.key()),
            r == !old(self)@.contains(item.key()),
            !r ==> final(self).items@ == old(self).items@,
    {
        if self.contains(&item) {
            assert(self@.insert(item.key()) =~= self@);
            return false;
        }
        let i = self.position(&item);
        let ghost before = self.items@;
        let ghost k = item.key();
        self.items.insert(i, item);
        proof {
            let after = self.items@;
            assert(after == before.insert(i as int, item));
            assert forall|m: int| 0 <= m < before.len() implies #[trigger] before[m].key() != k by {
                assert(!holds_key(before, k));
            }
            assert forall|a: int, b: int| 0 <= a < b < after.len() implies T::precedes(
                #[trigger] after[a].key(),
                #[trigger] after[b].key(),
            ) by {
                let oa = if a < i { a } else { a - 1 };
                let ob = if b < i { b } else { b - 1 };
                if a == i {
                    assert(after[b] == before[ob]);
                    T::total(k, before[ob].key());
                } else if b == i {
                    assert(after[a] == before[oa]);
                } else {
                    assert(after[a] == before[oa]);
                    assert(after[b] == before[ob]);
                }
            }
            assert(key_set(after) =~= key_set(before).insert(k)) by {
                assert forall|x: T::Key| holds_key(after, x) == (holds_key(before, x) || x == k) by {
                    if holds_key(before, x) {
                        let m = choose|m: int| 0 <= m < before.len() && #[trigger] before[m].key() == x;
                        if m < i {
                            assert(after[m] == before[m]);
                        } else {
                            assert(after[m + 1] == before[m]);
                        }
                    }
                    if x == k {
                        assert(after[i as int].key() == x);
                    }
                    if holds_key(after, x) {
                        let m = choose|m: int| 0 <= m < after.len() && #[trigger] after[m].key() == x;
                        if m < i {
                            assert(after[m] == before[m]);
                        } else if m > i {
                            assert(after[m] == before[m - 1]);
                        }
                    }
                }
            }
        }
        true
    }
}

/// Puts `items` in the order of their keys.
pub fn sort<T: Keyed>(items: Vec<T>) -> (r: Vec<T>)
    ensures
        in_order(r@),
        r@.to_multiset() == items@.to_multiset(),
        keys(r@).to_multiset() == keys(items@).to_multiset(),
{
    broadcast use vstd::seq_lib::group_to_multiset_ensures;

    let mut rest = items;
    let mut out: Vec<T> = Vec::new();
    let ghost all = items@;
    assert(out@.to_multiset().add(rest@.to_multiset()) =~= all.to_multiset());
    assert(keys(out@).to_multiset().add(keys(rest@).to_multiset()) =~= keys(all).to_multiset());
    while rest.len() > 0
        invariant
            in_order(out@),
            all.to_multiset() == out@.to_multiset().add(rest@.to_multiset()),
            keys(all).to_multiset() == keys(out@).to_multiset().add(keys(rest@).to_multiset()),
        decreases rest.len(),
    {
        let ghost rest0 = rest@;
        let ghost out0 = out@;
        let item = rest.remove(0);
        let mut i: usize = out.len();
        while i > 0 && item.is_before(&out[i - 1])
            invariant
                i <= out@.len(),
                out@ == out0,
                forall|k: int| i <= k < out@.len() ==> T::precedes(item.key(), #[trigger] out@[k].key()),
            decreases i,
        {
            i = i - 1;
        }
        out.insert(i, item);
        proof {
            broadcast use vstd::seq_lib::group_to_multiset_ensures;
            broadcast use vstd::seq_lib::to_multiset_insert;

            assert(rest0.to_multiset().count(item) > 0) by {
                assert(rest0.contains(rest0[0]));
            }
            assert(out@.to_multiset().add(rest@.to_multiset()) =~= out0.to_multiset().add(
                rest0.to_multiset(),
            ));
            assert(keys(rest0).to_multiset().count(item.key()) > 0) by {
                assert(keys(rest0)[0] == item.key());
                assert(keys(rest0).contains(keys(rest0)[0]));
            }
            assert(keys(out@) =~= keys(out0).insert(i as int, item.key()));
            assert(keys(rest@) =~= keys(rest0).remove(0));
            assert(keys(out@).to_multiset().add(keys(rest@).to_multiset()) =~= keys(
                out0,
            ).to_multiset().add(keys(rest0).to_multiset()));
            let now = out@;
            let k = item.key();
            assert forall|a: int, b: int| 0 <= a < b < now.len() implies !T::precedes(
                #[trigger] now[b].key(),
                #[trigger] now[a].key(),
            ) by {
                let oa = if a < i { a } else { a - 1 };
                let ob = if b < i { b } else { b - 1 };
                if a == i {
                    assert(now[b] == out0[ob]);
                    T::total(k, out0[ob].key());
                } else if b == i {
                    assert(now[a] == out0[oa]);
                    if T::precedes(k, out0[oa].key()) && oa < i - 1 {
                        T::total(out0[oa].key(), out0[i - 1].key());
                        if T::precedes(out0[oa].key(), out0[i - 1].key()) {
                            T::transitive(k, out0[oa].key(), out0[i - 1].key());
                        }
                    }
                } else {
                    assert(now[a] == out0[oa]);
                    assert(now[b] == out0[ob]);
                }
            }
        }
    }
    assert(out@.to_multiset().add(rest@.to_multiset()) =~= out@.to_multiset()) by {
        assert(rest@.to_multiset().len() == 0);
    }
    assert(keys(out@).to_multiset().add(keys(rest@).to_multiset()) =~= keys(out@).to_multiset()) by {
        assert(keys(rest@).to_multiset().len() == 0);
    }
    out
}

impl Keyed for String {
    type Key = Seq<char>;

    open spec fn key(&self) -> Seq<char> {
        self@
    }

    open spec fn precedes(a: Seq<char>, b: Seq<char>) -> bool {
        text::text_before(a, b)
    }

    fn is_before(&self, other: &Self) -> (r: bool) {
        text::before(self.as_str(), other.as_str())
    }

    proof fn total(a: Seq<char>, b: Seq<char>) {
        text::lemma_text_total(a, b);
    }

    proof fn transitive(a: Seq<char>, b: Seq<char>, c: Seq<char>) {
        text::lemma_text_transitive(a, b, c);
    }
}

} // verus!
