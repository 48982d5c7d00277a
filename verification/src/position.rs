//! Partitions of topics, and positions in them.

use vstd::prelude::*;

use crate::collections::ordered_map;
use crate::collections::order;
use crate::collections::{OrderedKey, OrderedMap, Placement};

verus! {

/// One partition of one topic.
#[derive(Debug, PartialEq, Eq)]
pub struct TopicPartition {
    /// The topic.
    pub topic: String,
    /// The partition of the topic.
    pub partition: i32,
}

impl View for TopicPartition {
    type V = (Seq<char>, i32);

    open spec fn view(&self) -> (Seq<char>, i32) {
        (self.topic@, self.partition)
    }
}

impl Clone for TopicPartition {
    fn clone(&self) -> (copy: Self)
        ensures
            copy@ == self@,
    {
        TopicPartition { topic: self.topic.clone(), partition: self.partition }
    }
}

/// The order of partitions: by topic name, and then by partition number.
pub open spec fn partition_before(a: (Seq<char>, i32), b: (Seq<char>, i32)) -> bool {
    order::name_before(a.0, b.0) || a.0 == b.0 && a.1 < b.1
}

impl OrderedKey for TopicPartition {
    type Probe = TopicPartition;

    open spec fn precedes(a: (Seq<char>, i32), b: (Seq<char>, i32)) -> bool {
        partition_before(a, b)
    }

    proof fn lemma_irreflexive(a: (Seq<char>, i32)) {
        String::lemma_irreflexive(a.0);
    }

    proof fn lemma_transitive(a: (Seq<char>, i32), b: (Seq<char>, i32), c: (Seq<char>, i32)) {
        if order::name_before(a.0, b.0) && order::name_before(b.0, c.0) {
            String::lemma_transitive(a.0, b.0, c.0);
        }
    }

    proof fn lemma_connected(a: (Seq<char>, i32), b: (Seq<char>, i32)) {
        String::lemma_connected(a.0, b.0);
    }

    fn place(&self, probe: &TopicPartition) -> (placement: Placement) {
        match order::place_names(self.topic.as_str(), probe.topic.as_str()) {
            Placement::Before => Placement::Before,
            Placement::After => Placement::After,
            Placement::Same => self.partition.place(&probe.partition),
        }
    }

    fn probe(&self) -> (probe: &TopicPartition) {
        self
    }

    fn duplicate(&self) -> (key: TopicPartition) {
        self.clone()
    }
}

/// An offset in each of a number of partitions, as topic to partition to offset.
#[derive(Debug, PartialEq, Eq)]
pub struct Position(pub OrderedMap<String, OrderedMap<i32, i64>>);

impl View for Position {
    type V = Map<Seq<char>, Map<i32, i64>>;

    open spec fn view(&self) -> Map<Seq<char>, Map<i32, i64>> {
        self.0@.map_values(|partitions: OrderedMap<i32, i64>| partitions@)
    }
}

/// Whether a position names a partition.
pub open spec fn names(position: Map<Seq<char>, Map<i32, i64>>, p: (Seq<char>, i32)) -> bool {
    position.dom().contains(p.0) && position[p.0].dom().contains(p.1)
}

/// The offset that a position gives a partition, if it names the partition.
pub open spec fn offset_in(
    position: Map<Seq<char>, Map<i32, i64>>,
    p: (Seq<char>, i32),
) -> Option<i64> {
    if names(position, p) {
        Some(position[p.0][p.1])
    } else {
        None
    }
}

impl Position {
    /// The position that names no partition.
    pub fn new() -> (position: Self)
        ensures
            position@ == Map::<Seq<char>, Map<i32, i64>>::empty(),
    {
        let position = Position(OrderedMap::new());
        assert(position@ =~= Map::<Seq<char>, Map<i32, i64>>::empty());
        position
    }

    /// The offset of one partition, or `None` when the position does not name
    /// it.
    pub fn offset(&self, topic: &str, partition: i32) -> (offset: Option<i64>)
        ensures
            offset == offset_in(self@, (topic@, partition)),
    {
        match self.0.get(topic) {
            None => None,
            Some(partitions) => match partitions.get(&partition) {
                None => None,
                Some(offset) => Some(*offset),
            },
        }
    }

    /// Every partition the position names, in topic and then partition order.
    pub fn partitions(&self) -> (partitions: Vec<TopicPartition>)
        ensures
            forall|i: int, j: int|
                0 <= i < j < partitions@.len() ==> partition_before(
                    (#[trigger] partitions@[i])@,
                    (#[trigger] partitions@[j])@,
                ),
            forall|i: int| 0 <= i < partitions@.len() ==> names(self@, (#[trigger] partitions@[i])@),
            forall|p: (Seq<char>, i32)|
                #[trigger] names(self@, p) ==> exists|i: int|
                    0 <= i < partitions@.len() && (#[trigger] partitions@[i])@ == p,
    {
        let mut found: Vec<TopicPartition> = Vec::new();
        let topics: usize = self.0.len();
        let ghost entries = self.0.entries();
        proof {
            ordered_map::lemma_ascending_distinct::<String, OrderedMap<i32, i64>>(entries);
            ordered_map::lemma_map_of_dom(entries);
            ordered_map::lemma_map_of_index(entries);
        }
        let mut t: usize = 0;
        while t < topics
            invariant
                t <= topics,
                topics == entries.len(),
                entries == self.0.entries(),
                ordered_map::ascending::<String, OrderedMap<i32, i64>>(entries),
                ordered_map::distinct(entries),
                forall|i: int|
                    #![trigger entries[i]]
                    0 <= i < entries.len() ==> self.0@.dom().contains(entries[i].0)
                        && self.0@[entries[i].0] == entries[i].1,
                listed_below(entries, found@, t as int, 0),
            decreases topics - t,
        {
            let topic = self.0.key_at(t);
            let partitions = self.0.value_at(t);
            let count: usize = partitions.len();
            let ghost inner = partitions.entries();
            proof {
                ordered_map::lemma_ascending_distinct::<i32, i64>(inner);
                ordered_map::lemma_map_of_dom(inner);
                ordered_map::lemma_map_of_index(inner);
            }
            let mut p: usize = 0;
            while p < count
                invariant
                    p <= count,
                    t < topics,
                    topics == entries.len(),
                    count == inner.len(),
                    ordered_map::ascending::<String, OrderedMap<i32, i64>>(entries),
                    ordered_map::ascending::<i32, i64>(inner),
                    entries[t as int].1 == *partitions,
                    inner == partitions.entries(),
                    entries[t as int].0 == topic@,
                    listed_below(entries, found@, t as int, p as int),
                decreases count - p,
            {
                let ghost before = found@;
                let partition: i32 = *partitions.key_at(p);
                found.push(TopicPartition { topic: topic.clone(), partition });
                proof {
                    lemma_listed_step(entries, before, found@[before.len() as int], t as int, p as int);
                }
                p = p + 1;
            }
            proof {
                lemma_listed_topic(entries, found@, t as int);
            }
            t = t + 1;
        }
        proof {
            assert forall|i: int| 0 <= i < found@.len() implies names(
                self@,
                (#[trigger] found@[i])@,
            ) by {
                assert(listed_before(entries, found@[i]@, t as int, 0));
                let (x, y) = choose|x: int, y: int| #[trigger]
                    listed_at(entries, found@[i]@, x, y) && (x < t || x == t && y < 0);
                ordered_map::lemma_map_of_dom(entries[x].1.entries());
                assert(entries[x].1.entries()[y].0 == found@[i]@.1);
            }
            assert forall|p: (Seq<char>, i32)| #[trigger] names(self@, p) implies exists|i: int|
                0 <= i < found@.len() && (#[trigger] found@[i])@ == p by {
                let x = choose|x: int| 0 <= x < entries.len() && #[trigger] entries[x].0 == p.0;
                let inner = entries[x].1.entries();
                ordered_map::lemma_map_of_dom(inner);
                let y = choose|y: int| 0 <= y < inner.len() && #[trigger] inner[y].0 == p.1;
                assert(listed_at(entries, p, x, y));
                assert(listed_before(entries, p, t as int, 0));
            }
        }
        found
    }
}

/// Whether `p` is the partition at place `y` of the topic at place `x`.
spec fn listed_at(
    entries: Seq<(Seq<char>, OrderedMap<i32, i64>)>,
    p: (Seq<char>, i32),
    x: int,
    y: int,
) -> bool {
    &&& 0 <= x < entries.len()
    &&& 0 <= y < entries[x].1.entries().len()
    &&& p == (entries[x].0, entries[x].1.entries()[y].0)
}

/// Whether `p` is among the partitions of the first `t` topics, or among the
/// first `q` partitions of topic `t`.
spec fn listed_before(
    entries: Seq<(Seq<char>, OrderedMap<i32, i64>)>,
    p: (Seq<char>, i32),
    t: int,
    q: int,
) -> bool {
    exists|x: int, y: int| #[trigger]
        listed_at(entries, p, x, y) && (x < t || x == t && y < q)
}

/// Whether a list holds, in order, every partition of the first `t` topics and
/// the first `q` partitions of topic `t`.
spec fn listed_below(
    entries: Seq<(Seq<char>, OrderedMap<i32, i64>)>,
    found: Seq<TopicPartition>,
    t: int,
    q: int,
) -> bool {
    &&& forall|i: int, j: int|
        0 <= i < j < found.len() ==> partition_before(
            (#[trigger] found[i])@,
            (#[trigger] found[j])@,
        )
    &&& forall|i: int|
        0 <= i < found.len() ==> listed_before(entries, (#[trigger] found[i])@, t, q)
    &&& forall|p: (Seq<char>, i32)| #[trigger]
        listed_before(entries, p, t, q) ==> exists|i: int|
            0 <= i < found.len() && (#[trigger] found[i])@ == p
}

proof fn lemma_listed_step(
    entries: Seq<(Seq<char>, OrderedMap<i32, i64>)>,
    found: Seq<TopicPartition>,
    next: TopicPartition,
    t: int,
    q: int,
)
    requires
        ordered_map::ascending::<String, OrderedMap<i32, i64>>(entries),
        0 <= t < entries.len(),
        ordered_map::ascending::<i32, i64>(entries[t].1.entries()),
        listed_at(entries, next@, t, q),
        listed_below(entries, found, t, q),
    ensures
        listed_below(entries, found.push(next), t, q + 1),
{
    let after = found.push(next);
    assert forall|i: int| 0 <= i < found.len() implies partition_before(
        (#[trigger] found[i])@,
        next@,
    ) by {
        assert(listed_before(entries, found[i]@, t, q));
        let (x, y) = choose|x: int, y: int| #[trigger]
            listed_at(entries, found[i]@, x, y) && (x < t || x == t && y < q);
        if x < t {
            assert(String::precedes(entries[x].0, entries[t].0));
        } else {
            let inner = entries[t].1.entries();
            assert(i32::precedes(inner[y].0, inner[q].0));
        }
    }
    assert forall|i: int| 0 <= i < after.len() implies listed_before(
        entries,
        (#[trigger] after[i])@,
        t,
        q + 1,
    ) by {
        if i < found.len() {
            assert(after[i] == found[i]);
            assert(listed_before(entries, found[i]@, t, q));
            let (x, y) = choose|x: int, y: int| #[trigger]
                listed_at(entries, found[i]@, x, y) && (x < t || x == t && y < q);
            assert(listed_at(entries, after[i]@, x, y));
        } else {
            assert(listed_at(entries, after[i]@, t, q));
        }
    }
    assert forall|p: (Seq<char>, i32)| #[trigger]
        listed_before(entries, p, t, q + 1) implies exists|i: int|
        0 <= i < after.len() && (#[trigger] after[i])@ == p by {
        let (x, y) = choose|x: int, y: int| #[trigger]
            listed_at(entries, p, x, y) && (x < t || x == t && y < q + 1);
        if x == t && y == q {
            assert(after[found.len() as int]@ == p);
        } else {
            assert(listed_before(entries, p, t, q));
            let i = choose|i: int| 0 <= i < found.len() && (#[trigger] found[i])@ == p;
            assert(after[i]@ == p);
        }
    }
    assert forall|i: int, j: int| 0 <= i < j < after.len() implies partition_before(
        (#[trigger] after[i])@,
        (#[trigger] after[j])@,
    ) by {
        assert(after[i] == found[i]);
        if j < found.len() {
            assert(after[j] == found[j]);
        }
    }
}

proof fn lemma_listed_topic(
    entries: Seq<(Seq<char>, OrderedMap<i32, i64>)>,
    found: Seq<TopicPartition>,
    t: int,
)
    requires
        0 <= t < entries.len(),
        listed_below(entries, found, t, entries[t].1.entries().len() as int),
    ensures
        listed_below(entries, found, t + 1, 0),
{
    let q = entries[t].1.entries().len() as int;
    assert forall|p: (Seq<char>, i32)| #[trigger]
        listed_before(entries, p, t + 1, 0) <==> listed_before(entries, p, t, q) by {
        if listed_before(entries, p, t + 1, 0) {
            let (x, y) = choose|x: int, y: int| #[trigger]
                listed_at(entries, p, x, y) && (x < t + 1 || x == t + 1 && y < 0);
            assert(listed_at(entries, p, x, y) && (x < t || x == t && y < q));
        }
        if listed_before(entries, p, t, q) {
            let (x, y) = choose|x: int, y: int| #[trigger]
                listed_at(entries, p, x, y) && (x < t || x == t && y < q);
            assert(listed_at(entries, p, x, y) && (x < t + 1 || x == t + 1 && y < 0));
        }
    }
    assert forall|i: int| 0 <= i < found.len() implies listed_before(
        entries,
        (#[trigger] found[i])@,
        t + 1,
        0,
    ) by {
        assert(listed_before(entries, found[i]@, t, q));
    }
}

impl Clone for Position {
    fn clone(&self) -> (copy: Self)
        ensures
            copy@ == self@,
    {
        let copy = Position(self.0.clone());
        proof {
            let ours = self.0.entries();
            let theirs = copy.0.entries();
            assert forall|i: int| 0 <= i < ours.len() implies (#[trigger] theirs[i]).0 == ours[i].0
                && theirs[i].1@ == ours[i].1@ by {
                let a = ours[i].1.entries();
                let b = theirs[i].1.entries();
                assert(cloned::<OrderedMap<i32, i64>>(ours[i].1, theirs[i].1));
                assert(a =~= b) by {
                    assert forall|j: int| 0 <= j < a.len() implies a[j] == b[j] by {
                        assert(cloned::<i64>(a[j].1, b[j].1));
                    }
                }
            }
            ordered_map::lemma_same_views(ours, theirs);
        }
        copy
    }
}

} // verus!
