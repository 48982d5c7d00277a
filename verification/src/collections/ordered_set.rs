//! A set that keeps its members in ascending order.

use vstd::prelude::*;

use crate::collections::ordered_map;
use crate::collections::ordered_map::OrderedMap;
use crate::collections::order::OrderedKey;

verus! {

/// A set of keys that holds each key once, in ascending order.
#[derive(Debug, PartialEq, Eq)]
pub struct OrderedSet<K: OrderedKey> {
    members: OrderedMap<K, ()>,
}

impl<K: OrderedKey> View for OrderedSet<K> {
    type V = Set<<K as View>::V>;

    closed spec fn view(&self) -> Set<<K as View>::V> {
        self.members@.dom()
    }
}

impl<K: OrderedKey> OrderedSet<K> {
    /// The members in order.
    pub closed spec fn members(&self) -> Seq<<K as View>::V> {
        Seq::new(self.members.entries().len(), |i: int| self.members.entries()[i].0)
    }

    /// An empty set.
    pub fn new() -> (s: Self)
        ensures
            s@ == Set::<<K as View>::V>::empty(),
    {
        let s = OrderedSet { members: OrderedMap::new() };
        assert(s@ =~= Set::<<K as View>::V>::empty());
        s
    }

    /// Adds a member, and reports whether it is new.
    pub fn insert(&mut self, key: K) -> (added: bool)
        ensures
            final(self)@ == old(self)@.insert(key.view()),
            added == !old(self)@.contains(key.view()),
    {
        let previous = self.members.insert(key, ());
        assert(self@ =~= old(self)@.insert(key.view()));
        previous.is_none()
    }

    /// Whether the set holds a key.
    pub fn contains(&self, probe: &K::Probe) -> (held: bool)
        ensures
            held == self@.contains(probe.view()),
    {
        self.members.get(probe).is_some()
    }

    /// Whether the set holds nothing.
    pub fn is_empty(&self) -> (empty: bool)
        ensures
            empty == (self@ == Set::<<K as View>::V>::empty()),
    {
        let empty = self.members.is_empty();
        proof {
            if empty {
                assert(self@ =~= Set::<<K as View>::V>::empty());
            } else {
                ordered_map::lemma_map_of_dom(self.members.entries());
                assert(self.members.entries()[0].0 == self.members.entries()[0].0);
                assert(self@.contains(self.members.entries()[0].0));
            }
        }
        empty
    }

    /// The number of members.
    pub fn len(&self) -> (n: usize)
        ensures
            n == self.members().len(),
            n == self@.len(),
            forall|i: int, j: int|
                0 <= i < j < self.members().len() ==> #[trigger] K::precedes(
                    self.members()[i],
                    self.members()[j],
                ),
            forall|k: <K as View>::V| #[trigger]
                self@.contains(k) <==> self.members().contains(k),
    {
        let n = self.members.len();
        proof {
            let entries = self.members.entries();
            let members = self.members();
            ordered_map::lemma_map_of_dom(entries);
            assert forall|i: int, j: int| 0 <= i < j < members.len() implies #[trigger] K::precedes(
                members[i],
                members[j],
            ) by {
                assert(K::precedes(entries[i].0, entries[j].0));
            }
            assert forall|k: <K as View>::V| #[trigger]
                self@.contains(k) <==> members.contains(k) by {
                if self@.contains(k) {
                    let i = choose|i: int| 0 <= i < entries.len() && #[trigger] entries[i].0 == k;
                    assert(members[i] == k);
                }
                if members.contains(k) {
                    let i = choose|i: int| 0 <= i < members.len() && members[i] == k;
                    assert(entries[i].0 == k);
                }
            }
        }
        n
    }

    /// The member at one place of the order.
    pub fn member_at(&self, i: usize) -> (key: &K)
        requires
            i < self.members().len(),
        ensures
            key.view() == self.members()[i as int],
    {
        self.members.key_at(i)
    }
}

impl<K: OrderedKey> Clone for OrderedSet<K> {
    fn clone(&self) -> (s: Self)
        ensures
            s@ == self@,
    {
        let s = OrderedSet { members: self.members.clone() };
        proof {
            let ours = self.members.entries();
            let theirs = s.members.entries();
            ordered_map::lemma_map_of_dom(ours);
            ordered_map::lemma_map_of_dom(theirs);
            assert forall|k: <K as View>::V| s@.contains(k) <==> self@.contains(k) by {
                if s@.contains(k) {
                    let i = choose|i: int|
                        0 <= i < theirs.len() && #[trigger] theirs[i].0 == k;
                    assert(ours[i].0 == k);
                }
                if self@.contains(k) {
                    let i = choose|i: int| 0 <= i < ours.len() && #[trigger] ours[i].0 == k;
                    assert(theirs[i].0 == k);
                }
            }
            assert(s@ =~= self@);
        }
        s
    }
}

} // verus!
