//! A map that keeps its entries in ascending key order.

use vstd::prelude::*;

use crate::collections::order::{OrderedKey, Placement};

verus! {

/// The map that a run of insertions builds. A later entry replaces an earlier
/// one with the same key.
pub open spec fn map_of<A, V>(entries: Seq<(A, V)>) -> Map<A, V>
    decreases entries.len(),
{
    if entries.len() == 0 {
        Map::empty()
    } else {
        map_of(entries.drop_last()).insert(entries.last().0, entries.last().1)
    }
}

/// Whether the keys of `entries` are strictly ascending in the order of `K`.
pub open spec fn ascending<K: OrderedKey, V>(entries: Seq<(<K as View>::V, V)>) -> bool {
    forall|i: int, j: int|
        0 <= i < j < entries.len() ==> #[trigger] K::precedes(entries[i].0, entries[j].0)
}

/// Whether no two entries share a key.
pub open spec fn distinct<A, V>(entries: Seq<(A, V)>) -> bool {
    forall|i: int, j: int|
        #![trigger entries[i], entries[j]]
        0 <= i < j < entries.len() ==> entries[i].0 != entries[j].0
}

/// Ascending keys are distinct.
pub proof fn lemma_ascending_distinct<K: OrderedKey, V>(entries: Seq<(<K as View>::V, V)>)
    requires
        ascending::<K, V>(entries),
    ensures
        distinct(entries),
{
    assert forall|i: int, j: int|
        #![trigger entries[i], entries[j]]
        0 <= i < j < entries.len() implies entries[i].0 != entries[j].0 by {
        assert(K::precedes(entries[i].0, entries[j].0));
        K::lemma_irreflexive(entries[i].0);
    }
}

/// The keys of the map are the keys of its entries.
pub proof fn lemma_map_of_dom<A, V>(entries: Seq<(A, V)>)
    ensures
        forall|k: A| #[trigger]
            map_of(entries).dom().contains(k) <==> exists|i: int|
                0 <= i < entries.len() && #[trigger] entries[i].0 == k,
        map_of(entries).dom().finite(),
    decreases entries.len(),
{
    if entries.len() > 0 {
        let rest = entries.drop_last();
        lemma_map_of_dom(rest);
        assert forall|k: A| #[trigger] map_of(entries).dom().contains(k) implies exists|i: int|
            0 <= i < entries.len() && #[trigger] entries[i].0 == k by {
            if k == entries.last().0 {
                assert(entries[entries.len() - 1].0 == k);
            } else {
                assert(map_of(rest).dom().contains(k));
                let i = choose|i: int| 0 <= i < rest.len() && #[trigger] rest[i].0 == k;
                assert(entries[i].0 == k);
            }
        }
        assert forall|k: A|
            (exists|i: int| 0 <= i < entries.len() && #[trigger] entries[i].0 == k) implies #[trigger]
        map_of(entries).dom().contains(k) by {
            let i = choose|i: int| 0 <= i < entries.len() && #[trigger] entries[i].0 == k;
            if i < rest.len() {
                assert(rest[i].0 == k);
                assert(map_of(rest).dom().contains(k));
            }
        }
    }
}

/// With distinct keys, the map holds every entry.
pub proof fn lemma_map_of_index<A, V>(entries: Seq<(A, V)>)
    requires
        distinct(entries),
    ensures
        forall|i: int|
            #![trigger entries[i]]
            0 <= i < entries.len() ==> map_of(entries).dom().contains(entries[i].0) && map_of(
                entries,
            )[entries[i].0] == entries[i].1,
    decreases entries.len(),
{
    if entries.len() > 0 {
        let rest = entries.drop_last();
        assert forall|i: int, j: int|
            #![trigger rest[i], rest[j]]
            0 <= i < j < rest.len() implies rest[i].0 != rest[j].0 by {
            assert(rest[i] == entries[i] && rest[j] == entries[j]);
        }
        lemma_map_of_index(rest);
        assert forall|i: int|
            #![trigger entries[i]]
            0 <= i < entries.len() implies map_of(entries).dom().contains(entries[i].0) && map_of(
            entries,
        )[entries[i].0] == entries[i].1 by {
            if i < rest.len() {
                assert(rest[i] == entries[i]);
                assert(entries[i].0 != entries[entries.len() - 1].0);
            }
        }
    }
}

/// The map holds the last entry of each key.
pub proof fn lemma_map_of_last<A, V>(entries: Seq<(A, V)>, i: int)
    requires
        0 <= i < entries.len(),
        forall|j: int| i < j < entries.len() ==> (#[trigger] entries[j]).0 != entries[i].0,
    ensures
        map_of(entries).dom().contains(entries[i].0),
        map_of(entries)[entries[i].0] == entries[i].1,
    decreases entries.len(),
{
    let last = entries.len() - 1;
    if i < last {
        let rest = entries.drop_last();
        assert forall|j: int| i < j < rest.len() implies (#[trigger] rest[j]).0 != rest[i].0 by {
            assert(entries[j].0 != entries[i].0);
        }
        lemma_map_of_last(rest, i);
        assert(entries[last].0 != entries[i].0);
    }
}

/// With distinct keys, the map does not depend on the order of the entries: any
/// map with the same bindings is the same map.
pub proof fn lemma_map_of_unique<A, V>(entries: Seq<(A, V)>, m: Map<A, V>)
    requires
        distinct(entries),
        forall|i: int|
            #![trigger entries[i]]
            0 <= i < entries.len() ==> m.dom().contains(entries[i].0) && m[entries[i].0]
                == entries[i].1,
        forall|k: A| #[trigger]
            m.dom().contains(k) ==> exists|i: int|
                0 <= i < entries.len() && #[trigger] entries[i].0 == k,
    ensures
        map_of(entries) == m,
{
    lemma_map_of_dom(entries);
    lemma_map_of_index(entries);
    assert forall|k: A| map_of(entries).dom().contains(k) <==> m.dom().contains(k) by {
        if map_of(entries).dom().contains(k) {
            let i = choose|i: int| 0 <= i < entries.len() && #[trigger] entries[i].0 == k;
            assert(m.dom().contains(entries[i].0));
        }
        if m.dom().contains(k) {
            let i = choose|i: int| 0 <= i < entries.len() && #[trigger] entries[i].0 == k;
            assert(map_of(entries).dom().contains(entries[i].0));
        }
    }
    assert forall|k: A| map_of(entries).dom().contains(k) implies map_of(entries)[k] == m[k] by {
        let i = choose|i: int| 0 <= i < entries.len() && #[trigger] entries[i].0 == k;
        assert(map_of(entries)[entries[i].0] == entries[i].1);
        assert(m[entries[i].0] == entries[i].1);
    }
    assert(map_of(entries) =~= m);
}

/// The length of the entries is the number of keys.
pub proof fn lemma_map_of_len<A, V>(entries: Seq<(A, V)>)
    requires
        distinct(entries),
    ensures
        map_of(entries).dom().len() == entries.len(),
    decreases entries.len(),
{
    if entries.len() > 0 {
        let rest = entries.drop_last();
        assert forall|i: int, j: int|
            #![trigger rest[i], rest[j]]
            0 <= i < j < rest.len() implies rest[i].0 != rest[j].0 by {
            assert(rest[i] == entries[i] && rest[j] == entries[j]);
        }
        lemma_map_of_len(rest);
        lemma_map_of_dom(rest);
        let k = entries.last().0;
        if map_of(rest).dom().contains(k) {
            let i = choose|i: int| 0 <= i < rest.len() && #[trigger] rest[i].0 == k;
            assert(entries[i].0 != entries[entries.len() - 1].0);
        }
    }
}

/// Runs that agree on their keys, and on the views of their values, build maps
/// with the same views.
pub proof fn lemma_same_views<A, V: View>(a: Seq<(A, V)>, b: Seq<(A, V)>)
    requires
        a.len() == b.len(),
        forall|i: int|
            0 <= i < a.len() ==> (#[trigger] b[i]).0 == a[i].0 && b[i].1.view() == a[i].1.view(),
    ensures
        map_of(a).map_values(|v: V| v.view()) == map_of(b).map_values(|v: V| v.view()),
    decreases a.len(),
{
    if a.len() > 0 {
        let ra = a.drop_last();
        let rb = b.drop_last();
        assert forall|i: int| 0 <= i < ra.len() implies (#[trigger] rb[i]).0 == ra[i].0
            && rb[i].1.view() == ra[i].1.view() by {
            assert(b[i].0 == a[i].0);
        }
        lemma_same_views(ra, rb);
        let last = a.len() - 1;
        assert(b[last].0 == a[last].0);
        assert(map_of(a).map_values(|v: V| v.view()) =~= map_of(ra).map_values(
            |v: V| v.view(),
        ).insert(a[last].0, a[last].1.view()));
        assert(map_of(b).map_values(|v: V| v.view()) =~= map_of(rb).map_values(
            |v: V| v.view(),
        ).insert(b[last].0, b[last].1.view()));
    } else {
        assert(a =~= b);
    }
}

/// **Canonical order.** The entries of an ordered map are determined by what the
/// map binds: two ascending runs that build the same map are the same run.
pub proof fn law_ascending_entries_are_canonical<K: OrderedKey, V>(
    a: Seq<(<K as View>::V, V)>,
    b: Seq<(<K as View>::V, V)>,
)
    requires
        ascending::<K, V>(a),
        ascending::<K, V>(b),
        map_of(a) == map_of(b),
    ensures
        a == b,
    decreases a.len(),
{
    lemma_ascending_distinct::<K, V>(a);
    lemma_ascending_distinct::<K, V>(b);
    lemma_map_of_len(a);
    lemma_map_of_len(b);
    lemma_map_of_dom(a);
    lemma_map_of_dom(b);
    lemma_map_of_index(a);
    lemma_map_of_index(b);
    if a.len() > 0 {
        let last = a.len() - 1;
        // Each run holds the other's last key, and nothing stands behind it.
        assert(map_of(b).dom().contains(a[last].0));
        let i = choose|i: int| 0 <= i < b.len() && #[trigger] b[i].0 == a[last].0;
        assert(map_of(a).dom().contains(b[last].0));
        let j = choose|j: int| 0 <= j < a.len() && #[trigger] a[j].0 == b[last].0;
        if i < last {
            assert(K::precedes(b[i].0, b[last].0));
            if j < last {
                assert(K::precedes(a[j].0, a[last].0));
                K::lemma_transitive(a[last].0, b[last].0, a[last].0);
            }
            K::lemma_irreflexive(a[last].0);
        }
        assert(a[last].0 == b[last].0);
        assert(map_of(a)[a[last].0] == a[last].1);
        assert(map_of(b)[b[last].0] == b[last].1);
        let ra = a.drop_last();
        let rb = b.drop_last();
        assert forall|x: int, y: int| 0 <= x < y < ra.len() implies #[trigger] K::precedes(
            ra[x].0,
            ra[y].0,
        ) by {
            assert(K::precedes(a[x].0, a[y].0));
        }
        assert forall|x: int, y: int| 0 <= x < y < rb.len() implies #[trigger] K::precedes(
            rb[x].0,
            rb[y].0,
        ) by {
            assert(K::precedes(b[x].0, b[y].0));
        }
        let k = a[last].0;
        lemma_map_of_dom(ra);
        lemma_map_of_dom(rb);
        assert(!map_of(ra).dom().contains(k)) by {
            if map_of(ra).dom().contains(k) {
                let x = choose|x: int| 0 <= x < ra.len() && #[trigger] ra[x].0 == k;
                assert(a[x].0 != a[last].0);
            }
        }
        assert(!map_of(rb).dom().contains(k)) by {
            if map_of(rb).dom().contains(k) {
                let x = choose|x: int| 0 <= x < rb.len() && #[trigger] rb[x].0 == k;
                assert(b[x].0 != b[last].0);
            }
        }
        assert(map_of(ra) =~= map_of(a).remove(k));
        assert(map_of(rb) =~= map_of(b).remove(k));
        law_ascending_entries_are_canonical::<K, V>(ra, rb);
        assert(a =~= ra.push(a[last]));
        assert(b =~= rb.push(b[last]));
    } else {
        assert(a =~= b);
    }
}

/// A map from `K` to `V` that keeps its entries in ascending key order and holds
/// each key once.
#[derive(Debug, PartialEq, Eq)]
pub struct OrderedMap<K: OrderedKey, V> {
    slots: Vec<(K, V)>,
}

/// The entries of a run of slots, each key taken by its view.
pub closed spec fn entries_of<K: OrderedKey, V>(slots: Seq<(K, V)>) -> Seq<(<K as View>::V, V)> {
    Seq::new(slots.len(), |i: int| (slots[i].0.view(), slots[i].1))
}

impl<K: OrderedKey, V> View for OrderedMap<K, V> {
    type V = Map<<K as View>::V, V>;

    open spec fn view(&self) -> Map<<K as View>::V, V> {
        map_of(self.entries())
    }
}

impl<K: OrderedKey, V> OrderedMap<K, V> {
    /// The entries in key order.
    pub closed spec fn entries(&self) -> Seq<(<K as View>::V, V)> {
        entries_of(self.slots@)
    }

    #[verifier::type_invariant]
    spec fn in_order(&self) -> bool {
        ascending::<K, V>(entries_of(self.slots@))
    }

    /// An empty map.
    pub fn new() -> (m: Self)
        ensures
            m.entries() == Seq::<(<K as View>::V, V)>::empty(),
            m@ == Map::<<K as View>::V, V>::empty(),
    {
        let m = OrderedMap { slots: Vec::new() };
        assert(m.entries() =~= Seq::<(<K as View>::V, V)>::empty());
        m
    }

    /// The number of entries.
    pub fn len(&self) -> (n: usize)
        ensures
            n == self.entries().len(),
            n == self@.dom().len(),
            ascending::<K, V>(self.entries()),
    {
        proof {
            use_type_invariant(self);
            lemma_ascending_distinct::<K, V>(self.entries());
            lemma_map_of_len(self.entries());
        }
        self.slots.len()
    }

    /// Whether the map holds no entry.
    pub fn is_empty(&self) -> (empty: bool)
        ensures
            empty == (self@ == Map::<<K as View>::V, V>::empty()),
            empty == (self.entries().len() == 0),
    {
        proof {
            lemma_map_of_dom(self.entries());
            if self.entries().len() > 0 {
                assert(self.entries()[0].0 == self.entries()[0].0);
                assert(self@.dom().contains(self.entries()[0].0));
            }
        }
        self.slots.len() == 0
    }

    /// The key at one place of the order.
    pub fn key_at(&self, i: usize) -> (key: &K)
        requires
            i < self.entries().len(),
        ensures
            key.view() == self.entries()[i as int].0,
    {
        &self.slots[i].0
    }

    /// The value at one place of the order.
    pub fn value_at(&self, i: usize) -> (value: &V)
        requires
            i < self.entries().len(),
        ensures
            *value == self.entries()[i as int].1,
    {
        &self.slots[i].1
    }

    /// The first place whose key does not stand before the probe.
    pub fn lower_bound(&self, probe: &K::Probe) -> (at: usize)
        ensures
            at <= self.entries().len(),
            ascending::<K, V>(self.entries()),
            forall|i: int|
                0 <= i < at ==> K::precedes((#[trigger] self.entries()[i]).0, probe.view()),
            forall|i: int|
                at <= i < self.entries().len() ==> !K::precedes(
                    (#[trigger] self.entries()[i]).0,
                    probe.view(),
                ),
    {
        proof {
            use_type_invariant(self);
        }
        let ghost entries = self.entries();
        let mut low: usize = 0;
        let mut high: usize = self.slots.len();
        while low < high
            invariant
                low <= high <= self.slots@.len(),
                entries == entries_of(self.slots@),
                ascending::<K, V>(entries),
                forall|i: int| 0 <= i < low ==> #[trigger] K::precedes(entries[i].0, probe.view()),
                forall|i: int|
                    high <= i < entries.len() ==> !#[trigger] K::precedes(
                        entries[i].0,
                        probe.view(),
                    ),
            decreases high - low,
        {
            let middle: usize = low + (high - low) / 2;
            let placement = self.slots[middle].0.place(probe);
            let ghost key = entries[middle as int].0;
            if let Placement::Before = placement {
                assert forall|i: int| 0 <= i < middle + 1 implies #[trigger] K::precedes(
                    entries[i].0,
                    probe.view(),
                ) by {
                    if i < middle {
                        assert(K::precedes(entries[i].0, key));
                        K::lemma_transitive(entries[i].0, key, probe.view());
                    }
                }
                low = middle + 1;
            } else {
                assert forall|i: int|
                    middle <= i < entries.len() implies !#[trigger] K::precedes(
                    entries[i].0,
                    probe.view(),
                ) by {
                    if K::precedes(entries[i].0, probe.view()) {
                        if i > middle {
                            assert(K::precedes(key, entries[i].0));
                            K::lemma_transitive(key, entries[i].0, probe.view());
                        }
                        if placement is Same {
                            K::lemma_irreflexive(key);
                        } else {
                            K::lemma_transitive(key, probe.view(), key);
                            K::lemma_irreflexive(key);
                        }
                    }
                }
                high = middle;
            }
        }
        low
    }

    /// The place of a key, if the map holds it.
    pub fn find(&self, probe: &K::Probe) -> (at: Option<usize>)
        ensures
            match at {
                Some(i) => {
                    &&& i < self.entries().len()
                    &&& self.entries()[i as int].0 == probe.view()
                    &&& self@.dom().contains(probe.view())
                    &&& self@[probe.view()] == self.entries()[i as int].1
                },
                None => !self@.dom().contains(probe.view()),
            },
    {
        let at = self.lower_bound(probe);
        let ghost entries = self.entries();
        proof {
            lemma_ascending_distinct::<K, V>(entries);
            lemma_map_of_dom(entries);
            lemma_map_of_index(entries);
        }
        if at < self.slots.len() {
            if let Placement::Same = self.slots[at].0.place(probe) {
                assert(entries[at as int].0 == probe.view());
                return Some(at);
            }
        }
        proof {
            if self@.dom().contains(probe.view()) {
                let i = choose|i: int|
                    0 <= i < entries.len() && #[trigger] entries[i].0 == probe.view();
                K::lemma_irreflexive(probe.view());
                assert(i >= at);
                if i > at {
                    assert(K::precedes(entries[at as int].0, entries[i].0));
                }
            }
        }
        None
    }

    /// The value of a key.
    pub fn get(&self, probe: &K::Probe) -> (value: Option<&V>)
        ensures
            value is Some <==> self@.dom().contains(probe.view()),
            value matches Some(v) ==> *v == self@[probe.view()],
    {
        match self.find(probe) {
            Some(at) => Some(&self.slots[at].1),
            None => None,
        }
    }

    /// Binds a key, and returns the value that the key was bound to before.
    pub fn insert(&mut self, key: K, value: V) -> (previous: Option<V>)
        ensures
            final(self)@ == old(self)@.insert(key.view(), value),
            previous == (if old(self)@.dom().contains(key.view()) {
                Some(old(self)@[key.view()])
            } else {
                None::<V>
            }),
    {
        let found = self.find(key.probe());
        let at = self.lower_bound(key.probe());
        let ghost before = self.entries();
        let ghost k = key.view();
        let mut slots: Vec<(K, V)> = Vec::new();
        std::mem::swap(&mut slots, &mut self.slots);
        proof {
            lemma_ascending_distinct::<K, V>(before);
            lemma_map_of_dom(before);
            lemma_map_of_index(before);
        }
        let mut previous: Option<V> = None;
        match found {
            Some(i) => {
                let (held, replaced) = slots.remove(i);
                slots.insert(i, (held, value));
                previous = Some(replaced);
                proof {
                    let after = entries_of(slots@);
                    assert(after =~= before.update(i as int, (k, value)));
                    lemma_replace_entry::<K, V>(before, i as int, value);
                }
            },
            None => {
                slots.insert(at, (key, value));
                proof {
                    let after = entries_of(slots@);
                    assert(after =~= before.insert(at as int, (k, value)));
                    lemma_add_entry::<K, V>(before, at as int, k, value);
                }
            },
        }
        self.slots = slots;
        previous
    }

    /// Drops a key, and returns the value that the key was bound to.
    pub fn remove(&mut self, probe: &K::Probe) -> (removed: Option<V>)
        ensures
            final(self)@ == old(self)@.remove(probe.view()),
            removed == (if old(self)@.dom().contains(probe.view()) {
                Some(old(self)@[probe.view()])
            } else {
                None::<V>
            }),
    {
        let found = self.find(probe);
        let ghost before = self.entries();
        match found {
            Some(i) => {
                proof {
                    use_type_invariant(&*self);
                }
                let mut slots: Vec<(K, V)> = Vec::new();
                std::mem::swap(&mut slots, &mut self.slots);
                let (_, value) = slots.remove(i);
                proof {
                    let after = entries_of(slots@);
                    assert(after =~= before.remove(i as int));
                    lemma_drop_entry::<K, V>(before, i as int);
                }
                self.slots = slots;
                Some(value)
            },
            None => {
                assert(old(self)@.remove(probe.view()) =~= old(self)@);
                None
            },
        }
    }
}

impl<K: OrderedKey, V: Clone> Clone for OrderedMap<K, V> {
    fn clone(&self) -> (m: Self)
        ensures
            m.entries().len() == self.entries().len(),
            forall|i: int|
                0 <= i < self.entries().len() ==> (#[trigger] m.entries()[i]).0
                    == self.entries()[i].0 && cloned::<V>(
                    self.entries()[i].1,
                    m.entries()[i].1,
                ),
    {
        proof {
            use_type_invariant(self);
        }
        let mut slots: Vec<(K, V)> = Vec::new();
        let mut i: usize = 0;
        while i < self.slots.len()
            invariant
                i <= self.slots@.len(),
                slots@.len() == i,
                forall|j: int|
                    0 <= j < i ==> (#[trigger] slots@[j]).0.view() == self.slots@[j].0.view()
                        && cloned::<V>(self.slots@[j].1, slots@[j].1),
            decreases self.slots@.len() - i,
        {
            slots.push((self.slots[i].0.duplicate(), self.slots[i].1.clone()));
            i = i + 1;
        }
        proof {
            let ours = entries_of(self.slots@);
            let theirs = entries_of(slots@);
            assert forall|x: int, y: int| 0 <= x < y < theirs.len() implies #[trigger] K::precedes(
                theirs[x].0,
                theirs[y].0,
            ) by {
                assert(slots@[x].0.view() == self.slots@[x].0.view());
                assert(slots@[y].0.view() == self.slots@[y].0.view());
                assert(K::precedes(ours[x].0, ours[y].0));
            }
        }
        OrderedMap { slots }
    }
}

/// A new value for a held key keeps the order and changes that binding.
proof fn lemma_replace_entry<K: OrderedKey, V>(
    before: Seq<(<K as View>::V, V)>,
    i: int,
    value: V,
)
    requires
        ascending::<K, V>(before),
        0 <= i < before.len(),
    ensures
        ascending::<K, V>(before.update(i, (before[i].0, value))),
        map_of(before.update(i, (before[i].0, value))) == map_of(before).insert(
            before[i].0,
            value,
        ),
{
    let after = before.update(i, (before[i].0, value));
    assert forall|x: int, y: int| 0 <= x < y < after.len() implies #[trigger] K::precedes(
        after[x].0,
        after[y].0,
    ) by {
        assert(K::precedes(before[x].0, before[y].0));
    }
    lemma_ascending_distinct::<K, V>(before);
    lemma_ascending_distinct::<K, V>(after);
    lemma_map_of_dom(before);
    lemma_map_of_index(before);
    let m = map_of(before).insert(before[i].0, value);
    assert forall|j: int|
        #![trigger after[j]]
        0 <= j < after.len() implies m.dom().contains(after[j].0) && m[after[j].0]
        == after[j].1 by {
        assert(before[j].0 == after[j].0);
        if j != i {
            assert(before[j].0 != before[i].0);
        }
    }
    assert forall|k: <K as View>::V| #[trigger] m.dom().contains(k) implies exists|j: int|
        0 <= j < after.len() && #[trigger] after[j].0 == k by {
        if k == before[i].0 {
            assert(after[i].0 == k);
        } else {
            let j = choose|j: int| 0 <= j < before.len() && #[trigger] before[j].0 == k;
            assert(after[j].0 == k);
        }
    }
    lemma_map_of_unique(after, m);
}

/// A new key at its lower bound keeps the order and adds that binding.
proof fn lemma_add_entry<K: OrderedKey, V>(
    before: Seq<(<K as View>::V, V)>,
    at: int,
    key: <K as View>::V,
    value: V,
)
    requires
        ascending::<K, V>(before),
        0 <= at <= before.len(),
        forall|i: int| 0 <= i < at ==> #[trigger] K::precedes(before[i].0, key),
        forall|i: int| at <= i < before.len() ==> !#[trigger] K::precedes(before[i].0, key),
        !map_of(before).dom().contains(key),
    ensures
        ascending::<K, V>(before.insert(at, (key, value))),
        map_of(before.insert(at, (key, value))) == map_of(before).insert(key, value),
{
    let after = before.insert(at, (key, value));
    lemma_ascending_distinct::<K, V>(before);
    lemma_map_of_dom(before);
    lemma_map_of_index(before);
    assert forall|x: int, y: int| 0 <= x < y < after.len() implies #[trigger] K::precedes(
        after[x].0,
        after[y].0,
    ) by {
        if x < at && y < at {
            assert(after[x] == before[x] && after[y] == before[y]);
        } else if x < at && y == at {
            assert(after[x] == before[x]);
        } else if x < at {
            assert(after[x] == before[x] && after[y] == before[y - 1]);
        } else if x == at {
            assert(after[y] == before[y - 1]);
            assert(!K::precedes(before[y - 1].0, key));
            K::lemma_connected(before[y - 1].0, key);
            assert(map_of(before).dom().contains(before[y - 1].0));
        } else {
            assert(after[x] == before[x - 1] && after[y] == before[y - 1]);
        }
    }
    lemma_ascending_distinct::<K, V>(after);
    let m = map_of(before).insert(key, value);
    assert forall|j: int|
        #![trigger after[j]]
        0 <= j < after.len() implies m.dom().contains(after[j].0) && m[after[j].0]
        == after[j].1 by {
        if j < at {
            assert(after[j] == before[j]);
        } else if j > at {
            assert(after[j] == before[j - 1]);
        }
    }
    assert forall|k: <K as View>::V| #[trigger] m.dom().contains(k) implies exists|j: int|
        0 <= j < after.len() && #[trigger] after[j].0 == k by {
        if k == key {
            assert(after[at].0 == k);
        } else {
            let j = choose|j: int| 0 <= j < before.len() && #[trigger] before[j].0 == k;
            if j < at {
                assert(after[j].0 == k);
            } else {
                assert(after[j + 1].0 == k);
            }
        }
    }
    lemma_map_of_unique(after, m);
}

/// A key has a lower bound in an ascending run.
proof fn lemma_lower_bound<K: OrderedKey, V>(
    entries: Seq<(<K as View>::V, V)>,
    key: <K as View>::V,
    n: int,
) -> (at: int)
    requires
        ascending::<K, V>(entries),
        0 <= n <= entries.len(),
        forall|i: int| 0 <= i < n ==> #[trigger] K::precedes(entries[i].0, key),
    ensures
        n <= at <= entries.len(),
        forall|i: int| 0 <= i < at ==> #[trigger] K::precedes(entries[i].0, key),
        forall|i: int| at <= i < entries.len() ==> !#[trigger] K::precedes(entries[i].0, key),
    decreases entries.len() - n,
{
    if n == entries.len() {
        n
    } else if K::precedes(entries[n].0, key) {
        lemma_lower_bound::<K, V>(entries, key, n + 1)
    } else {
        assert forall|i: int| n <= i < entries.len() implies !#[trigger] K::precedes(
            entries[i].0,
            key,
        ) by {
            if K::precedes(entries[i].0, key) && i > n {
                assert(K::precedes(entries[n].0, entries[i].0));
                K::lemma_transitive(entries[n].0, entries[i].0, key);
            }
        }
        n
    }
}

/// Every finite map has a run of entries in ascending key order.
pub proof fn lemma_ascending_run<K: OrderedKey, V>(m: Map<<K as View>::V, V>) -> (entries: Seq<
    (<K as View>::V, V),
>)
    requires
        m.dom().finite(),
    ensures
        ascending::<K, V>(entries),
        map_of(entries) == m,
    decreases m.dom().len(),
{
    if m.dom().len() == 0 {
        assert(m =~= Map::empty());
        Seq::empty()
    } else {
        let key = m.dom().choose();
        let rest = lemma_ascending_run::<K, V>(m.remove(key));
        let at = lemma_lower_bound::<K, V>(rest, key, 0);
        lemma_add_entry::<K, V>(rest, at, key, m[key]);
        assert(m.remove(key).insert(key, m[key]) =~= m);
        rest.insert(at, (key, m[key]))
    }
}

/// Without one of its entries, a run keeps its order and loses that binding.
proof fn lemma_drop_entry<K: OrderedKey, V>(before: Seq<(<K as View>::V, V)>, i: int)
    requires
        ascending::<K, V>(before),
        0 <= i < before.len(),
    ensures
        ascending::<K, V>(before.remove(i)),
        map_of(before.remove(i)) == map_of(before).remove(before[i].0),
{
    let after = before.remove(i);
    lemma_ascending_distinct::<K, V>(before);
    lemma_map_of_dom(before);
    lemma_map_of_index(before);
    assert forall|x: int, y: int| 0 <= x < y < after.len() implies #[trigger] K::precedes(
        after[x].0,
        after[y].0,
    ) by {
        let x0 = if x < i { x } else { x + 1 };
        let y0 = if y < i { y } else { y + 1 };
        assert(after[x] == before[x0] && after[y] == before[y0]);
        assert(K::precedes(before[x0].0, before[y0].0));
    }
    lemma_ascending_distinct::<K, V>(after);
    let m = map_of(before).remove(before[i].0);
    assert forall|j: int|
        #![trigger after[j]]
        0 <= j < after.len() implies m.dom().contains(after[j].0) && m[after[j].0]
        == after[j].1 by {
        let j0 = if j < i { j } else { j + 1 };
        assert(after[j] == before[j0]);
        assert(before[j0].0 != before[i].0);
    }
    assert forall|k: <K as View>::V| #[trigger] m.dom().contains(k) implies exists|j: int|
        0 <= j < after.len() && #[trigger] after[j].0 == k by {
        let j = choose|j: int| 0 <= j < before.len() && #[trigger] before[j].0 == k;
        if j < i {
            assert(after[j].0 == k);
        } else {
            assert(after[j - 1].0 == k);
        }
    }
    lemma_map_of_unique(after, m);
}

} // verus!
