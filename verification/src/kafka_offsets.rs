//! Kafka consumer offsets: what to resume from, by topic and partition.

use vstd::prelude::*;

verus! {

/// The offsets of one topic.
#[derive(Debug)]
pub struct TopicOffsets {
    topic: String,
    partitions: Vec<(u32, u64)>,
}

/// The offsets of one topic, as a value.
#[verifier::ext_equal]
pub struct TopicView {
    pub topic: Seq<char>,
    /// Pairs of a partition and its offset.
    pub partitions: Seq<(u32, u64)>,
}

impl View for TopicOffsets {
    type V = TopicView;

    closed spec fn view(&self) -> TopicView {
        TopicView { topic: self.topic@, partitions: self.partitions@ }
    }
}

impl TopicOffsets {
    pub fn topic(&self) -> (topic: &str)
        ensures
            topic@ == self@.topic,
    {
        self.topic.as_str()
    }

    /// The partitions with their offsets, in the order in which they were first
    /// set.
    pub fn partitions(&self) -> (partitions: &[(u32, u64)])
        ensures
            partitions@ == self@.partitions,
    {
        self.partitions.as_slice()
    }
}

/// The position of the first pair of a partition.
pub open spec fn pair_position(pairs: Seq<(u32, u64)>, partition: u32) -> Option<int>
    decreases pairs.len(),
{
    if pairs.len() == 0 {
        None
    } else {
        match pair_position(pairs.drop_last(), partition) {
            Some(i) => Some(i),
            None => if pairs.last().0 == partition {
                Some(pairs.len() - 1)
            } else {
                None
            },
        }
    }
}

/// The position of the first group of a topic.
pub open spec fn topic_position(topics: Seq<TopicView>, topic: Seq<char>) -> Option<int>
    decreases topics.len(),
{
    if topics.len() == 0 {
        None
    } else {
        match topic_position(topics.drop_last(), topic) {
            Some(i) => Some(i),
            None => if topics.last().topic == topic {
                Some(topics.len() - 1)
            } else {
                None
            },
        }
    }
}

/// The offset that is listed for a topic and a partition.
pub open spec fn lookup(topics: Seq<TopicView>, topic: Seq<char>, partition: u32) -> Option<u64> {
    match topic_position(topics, topic) {
        Some(i) => match pair_position(topics[i].partitions, partition) {
            Some(j) => Some(topics[i].partitions[j].1),
            None => None,
        },
        None => None,
    }
}

/// The listed offsets as a map.
pub open spec fn offset_map(topics: Seq<TopicView>) -> Map<(Seq<char>, u32), u64> {
    Map::new(
        |key: (Seq<char>, u32)| lookup(topics, key.0, key.1) is Some,
        |key: (Seq<char>, u32)| lookup(topics, key.0, key.1)->0,
    )
}

/// The groups have different topics, and the pairs of a group different
/// partitions.
pub open spec fn distinct(topics: Seq<TopicView>) -> bool {
    &&& forall|i: int, j: int|
        0 <= i < j < topics.len() ==> (#[trigger] topics[i]).topic != (#[trigger] topics[j]).topic
    &&& forall|i: int| 0 <= i < topics.len() ==> distinct_pairs((#[trigger] topics[i]).partitions)
}

pub open spec fn distinct_pairs(pairs: Seq<(u32, u64)>) -> bool {
    forall|i: int, j: int| 0 <= i < j < pairs.len() ==> (#[trigger] pairs[i]).0 != (
    #[trigger] pairs[j]).0
}

/// What `pair_position` finds.
pub proof fn lemma_pair_position(pairs: Seq<(u32, u64)>, partition: u32)
    ensures
        match pair_position(pairs, partition) {
            Some(i) => {
                &&& 0 <= i < pairs.len()
                &&& pairs[i].0 == partition
                &&& forall|j: int| 0 <= j < i ==> (#[trigger] pairs[j]).0 != partition
            },
            None => forall|j: int| 0 <= j < pairs.len() ==> (#[trigger] pairs[j]).0 != partition,
        },
    decreases pairs.len(),
{
    if pairs.len() > 0 {
        let rest = pairs.drop_last();
        lemma_pair_position(rest, partition);
        assert forall|j: int| 0 <= j < rest.len() implies rest[j] == pairs[j] by {}
    }
}

/// What `topic_position` finds.
pub proof fn lemma_topic_position(topics: Seq<TopicView>, topic: Seq<char>)
    ensures
        match topic_position(topics, topic) {
            Some(i) => {
                &&& 0 <= i < topics.len()
                &&& topics[i].topic == topic
                &&& forall|j: int| 0 <= j < i ==> (#[trigger] topics[j]).topic != topic
            },
            None => forall|j: int| 0 <= j < topics.len() ==> (#[trigger] topics[j]).topic != topic,
        },
    decreases topics.len(),
{
    if topics.len() > 0 {
        let rest = topics.drop_last();
        lemma_topic_position(rest, topic);
        assert forall|j: int| 0 <= j < rest.len() implies rest[j] == topics[j] by {}
    }
}

/// A map after the pairs of a topic have been set in their order.
pub open spec fn apply_pairs(
    map: Map<(Seq<char>, u32), u64>,
    topic: Seq<char>,
    pairs: Seq<(u32, u64)>,
) -> Map<(Seq<char>, u32), u64>
    decreases pairs.len(),
{
    if pairs.len() == 0 {
        map
    } else {
        apply_pairs(map, topic, pairs.drop_last()).insert((topic, pairs.last().0), pairs.last().1)
    }
}

/// A map after the pairs of all groups have been set in their order.
pub open spec fn apply_topics(
    map: Map<(Seq<char>, u32), u64>,
    topics: Seq<TopicView>,
) -> Map<(Seq<char>, u32), u64>
    decreases topics.len(),
{
    if topics.len() == 0 {
        map
    } else {
        apply_pairs(
            apply_topics(map, topics.drop_last()),
            topics.last().topic,
            topics.last().partitions,
        )
    }
}

/// A map after committed positions of a topic have been set in their order; a
/// negative position stands for none.
pub open spec fn apply_committed(
    map: Map<(Seq<char>, u32), u64>,
    topic: Seq<char>,
    committed: Seq<(i32, i64)>,
) -> Map<(Seq<char>, u32), u64>
    decreases committed.len(),
{
    if committed.len() == 0 {
        map
    } else {
        let rest = apply_committed(map, topic, committed.drop_last());
        let (partition, position) = committed.last();
        if position >= 0 {
            rest.insert((topic, partition as u32), position as u64)
        } else {
            rest
        }
    }
}

/// A committed position that is not negative reads back as it was committed, unless a
/// later one of the same partition takes its place. In particular, each does where no
/// partition occurs twice.
pub proof fn committed_positions_read_back(
    map: Map<(Seq<char>, u32), u64>,
    topic: Seq<char>,
    committed: Seq<(i32, i64)>,
    k: int,
)
    requires
        0 <= k < committed.len(),
        committed[k].1 >= 0,
        forall|j: int|
            k < j < committed.len() && (#[trigger] committed[j]).1 >= 0 ==> committed[j].0
                != committed[k].0,
    ensures
        apply_committed(map, topic, committed).contains_key((topic, committed[k].0 as u32)),
        apply_committed(map, topic, committed)[(topic, committed[k].0 as u32)] == committed[k].1,
    decreases committed.len(),
{
    if k < committed.len() - 1 {
        let rest = committed.drop_last();
        assert forall|j: int| k < j < rest.len() && (#[trigger] rest[j]).1 >= 0 implies rest[j].0
            != rest[k].0 by {
            assert(committed[j].0 != committed[k].0);
        }
        committed_positions_read_back(map, topic, rest, k);
        let a = committed[k].0;
        let b = committed[committed.len() - 1].0;
        assert(a != b ==> a as u32 != b as u32) by (bit_vector);
    }
}

/// Committing leaves the offsets of all other partitions alone.
pub proof fn uncommitted_offsets_stay(
    map: Map<(Seq<char>, u32), u64>,
    topic: Seq<char>,
    committed: Seq<(i32, i64)>,
    key: (Seq<char>, u32),
)
    requires
        forall|k: int|
            0 <= k < committed.len() && (#[trigger] committed[k]).1 >= 0 ==> key != (
                topic,
                committed[k].0 as u32,
            ),
    ensures
        apply_committed(map, topic, committed).contains_key(key) == map.contains_key(key),
        map.contains_key(key) ==> apply_committed(map, topic, committed)[key] == map[key],
    decreases committed.len(),
{
    if committed.len() > 0 {
        let rest = committed.drop_last();
        assert forall|k: int| 0 <= k < rest.len() && (#[trigger] rest[k]).1 >= 0 implies key != (
            topic,
            rest[k].0 as u32,
        ) by {
            assert(committed[k].1 >= 0);
        }
        uncommitted_offsets_stay(map, topic, rest, key);
        assert(committed[committed.len() - 1] == committed.last());
    }
}

/// Every pair of a listing without repetitions is in its map, with its offset.
pub proof fn listed_offsets_are_found(topics: Seq<TopicView>, i: int, j: int)
    requires
        distinct(topics),
        0 <= i < topics.len(),
        0 <= j < topics[i].partitions.len(),
    ensures
        offset_map(topics).contains_key((topics[i].topic, topics[i].partitions[j].0)),
        offset_map(topics)[(topics[i].topic, topics[i].partitions[j].0)]
            == topics[i].partitions[j].1,
{
    let pairs = topics[i].partitions;
    lemma_topic_position(topics, topics[i].topic);
    lemma_pair_position(pairs, pairs[j].0);
    let at = topic_position(topics, topics[i].topic)->0;
    if at < i {
        assert(topics[at].topic != topics[i].topic);
    }
    assert(distinct_pairs(pairs));
    let found = pair_position(pairs, pairs[j].0)->0;
    if found < j {
        assert(pairs[found].0 != pairs[j].0);
    }
}

/// Every offset of the map of a listing is listed for its topic and partition.
pub proof fn found_offsets_are_listed(topics: Seq<TopicView>, topic: Seq<char>, partition: u32) -> (
at: (int, int))
    requires
        offset_map(topics).contains_key((topic, partition)),
    ensures
        0 <= at.0 < topics.len(),
        topics[at.0].topic == topic,
        0 <= at.1 < topics[at.0].partitions.len(),
        topics[at.0].partitions[at.1] == (partition, offset_map(topics)[(topic, partition)]),
{
    lemma_topic_position(topics, topic);
    let i = topic_position(topics, topic)->0;
    lemma_pair_position(topics[i].partitions, partition);
    (i, pair_position(topics[i].partitions, partition)->0)
}

proof fn lemma_apply_pairs(
    map: Map<(Seq<char>, u32), u64>,
    topic: Seq<char>,
    pairs: Seq<(u32, u64)>,
    t: Seq<char>,
    p: u32,
)
    requires
        distinct_pairs(pairs),
    ensures
        ({
            let after = apply_pairs(map, topic, pairs);
            match pair_position(pairs, p) {
                Some(j) if t == topic => after.contains_key((t, p)) && after[(t, p)] == pairs[j].1,
                _ => after.contains_key((t, p)) == map.contains_key((t, p)) && (map.contains_key(
                    (t, p),
                ) ==> after[(t, p)] == map[(t, p)]),
            }
        }),
    decreases pairs.len(),
{
    if pairs.len() > 0 {
        let rest = pairs.drop_last();
        let last = pairs.len() - 1;
        assert forall|i: int, j: int| 0 <= i < j < rest.len() implies (#[trigger] rest[i]).0 != (
        #[trigger] rest[j]).0 by {
            assert(pairs[i].0 != pairs[j].0);
        }
        lemma_apply_pairs(map, topic, rest, t, p);
        lemma_pair_position(rest, p);
        if let Some(j) = pair_position(rest, p) {
            assert(pairs[j].0 != pairs[last].0);
            assert(rest[j] == pairs[j]);
        }
    }
}

/// Setting all offsets of a listing without repetitions is laying the listing
/// over the map.
pub proof fn lemma_apply_topics(map: Map<(Seq<char>, u32), u64>, topics: Seq<TopicView>)
    requires
        distinct(topics),
    ensures
        apply_topics(map, topics) == map.union_prefer_right(offset_map(topics)),
    decreases topics.len(),
{
    let after = apply_topics(map, topics);
    if topics.len() == 0 {
        assert(after =~= map.union_prefer_right(offset_map(topics)));
    } else {
        let rest = topics.drop_last();
        let group = topics.last();
        let last = topics.len() - 1;
        assert(topics[last] == group);
        assert forall|i: int, j: int| 0 <= i < j < rest.len() implies (#[trigger] rest[i]).topic
            != (#[trigger] rest[j]).topic by {
            assert(topics[i].topic != topics[j].topic);
        }
        assert forall|i: int| 0 <= i < rest.len() implies distinct_pairs(
            (#[trigger] rest[i]).partitions,
        ) by {
            assert(distinct_pairs(topics[i].partitions));
        }
        lemma_apply_topics(map, rest);
        let before = apply_topics(map, rest);
        let laid = map.union_prefer_right(offset_map(topics));
        assert forall|key: (Seq<char>, u32)| #[trigger]
            after.contains_key(key) == laid.contains_key(key) && (laid.contains_key(key)
                ==> after[key] == laid[key]) by {
            lemma_apply_pairs(before, group.topic, group.partitions, key.0, key.1);
            lemma_topic_position(rest, key.0);
            lemma_pair_position(group.partitions, key.1);
            if let Some(i) = topic_position(rest, key.0) {
                assert(topics[i].topic != topics[last].topic);
                assert(rest[i] == topics[i]);
            }
            assert((key.0, key.1) == key);
        }
        assert(after =~= laid);
    }
}

/// Kafka consumer offsets at the time of a snapshot, by topic and partition.
#[derive(Debug)]
pub struct KafkaOffsets {
    topics: Vec<TopicOffsets>,
}

/// What each of a sequence of topics lists.
pub open spec fn topic_views(topics: Seq<TopicOffsets>) -> Seq<TopicView> {
    topics.map_values(|t: TopicOffsets| t@)
}

impl View for KafkaOffsets {
    type V = Map<(Seq<char>, u32), u64>;

    open spec fn view(&self) -> Map<(Seq<char>, u32), u64> {
        offset_map(self.listing())
    }
}

impl KafkaOffsets {
    /// The offsets as they are listed: topics and partitions in the order in
    /// which they were first set.
    pub closed spec fn listing(&self) -> Seq<TopicView> {
        topic_views(self.topics@)
    }

    /// No topic and no partition of a topic is listed twice.
    pub open spec fn wf(&self) -> bool {
        distinct(self.listing())
    }

    pub fn new() -> (offsets: Self)
        ensures
            offsets.wf(),
            offsets@ == Map::<(Seq<char>, u32), u64>::empty(),
            offsets.listing() == Seq::<TopicView>::empty(),
    {
        let offsets = KafkaOffsets { topics: Vec::new() };
        assert(offsets.listing() =~= Seq::empty());
        assert(offsets@ =~= Map::empty());
        offsets
    }

    /// The position of a topic.
    fn find_topic(&self, topic: &str) -> (at: Option<usize>)
        ensures
            match at {
                Some(i) => topic_position(self.listing(), topic@) == Some(i as int),
                None => topic_position(self.listing(), topic@) is None,
            },
    {
        let name: String = topic.to_owned();
        let ghost all = self.listing();
        proof {
            lemma_topic_position(all, topic@);
        }
        let mut i: usize = 0;
        while i < self.topics.len()
            invariant
                i <= self.topics@.len(),
                all == topic_views(self.topics@),
                name@ == topic@,
                match topic_position(all, topic@) {
                    Some(at) => i <= at < all.len() && all[at].topic == topic@ && forall|j: int|
                        0 <= j < at ==> (#[trigger] all[j]).topic != topic@,
                    None => forall|j: int|
                        0 <= j < all.len() ==> (#[trigger] all[j]).topic != topic@,
                },
            decreases self.topics@.len() - i,
        {
            assert(all[i as int] == self.topics@[i as int]@);
            if self.topics[i].topic == name {
                return Some(i);
            }
            i += 1;
        }
        None
    }

    /// The position of a partition among pairs.
    fn find_partition(pairs: &Vec<(u32, u64)>, partition: u32) -> (at: Option<usize>)
        ensures
            match at {
                Some(i) => pair_position(pairs@, partition) == Some(i as int),
                None => pair_position(pairs@, partition) is None,
            },
    {
        proof {
            lemma_pair_position(pairs@, partition);
        }
        let mut i: usize = 0;
        while i < pairs.len()
            invariant
                i <= pairs@.len(),
                match pair_position(pairs@, partition) {
                    Some(at) => i <= at < pairs@.len() && pairs@[at].0 == partition && forall|
                        j: int,
                    |
                        0 <= j < at ==> (#[trigger] pairs@[j]).0 != partition,
                    None => forall|j: int|
                        0 <= j < pairs@.len() ==> (#[trigger] pairs@[j]).0 != partition,
                },
            decreases pairs@.len() - i,
        {
            if pairs[i].0 == partition {
                return Some(i);
            }
            i += 1;
        }
        None
    }

    /// Sets the offset of a partition of a topic.
    pub fn set(&mut self, topic: &str, partition: u32, offset: u64)
        ensures
            final(self)@ == old(self)@.insert((topic@, partition), offset),
            old(self).wf() ==> final(self).wf(),
            old(self).listing().len() <= final(self).listing().len() <= old(self).listing().len()
                + 1,
            forall|i: int|
                0 <= i < old(self).listing().len() ==> {
                    &&& (#[trigger] final(self).listing()[i]).topic
                        == old(self).listing()[i].topic
                    &&& final(self).listing()[i].topic != topic@ ==> final(self).listing()[i]
                        == old(self).listing()[i]
                },
            final(self).listing().len() > old(self).listing().len() ==> (
            final(self).listing().last()) == (TopicView {
                topic: topic@,
                partitions: seq![(partition, offset)],
            }),
    {
        let ghost before = self.listing();
        match self.find_topic(topic) {
            Some(i) => {
                proof {
                    lemma_topic_position(before, topic@);
                }
                let ghost pairs = self.topics@[i as int].partitions@;
                assert(before[i as int] == self.topics@[i as int]@);
                match Self::find_partition(&self.topics[i].partitions, partition) {
                    Some(j) => {
                        proof {
                            lemma_pair_position(pairs, partition);
                        }
                        self.topics[i].partitions[j] = (partition, offset);
                    },
                    None => {
                        self.topics[i].partitions.push((partition, offset));
                    },
                }
                proof {
                    let after = self.listing();
                    let changed = self.topics@[i as int]@;
                    assert(after =~= before.update(i as int, changed));
                    lemma_set_in_topic(before, i as int, changed, topic@, partition, offset);
                }
            },
            None => {
                let mut partitions: Vec<(u32, u64)> = Vec::new();
                partitions.push((partition, offset));
                let group = TopicOffsets { topic: topic.to_owned(), partitions };
                self.topics.push(group);
                proof {
                    let after = self.listing();
                    assert(group@.partitions =~= seq![(partition, offset)]);
                    assert(after =~= before.push(group@));
                    lemma_set_new_topic(before, group@, topic@, partition, offset);
                }
            },
        }
    }

    /// The offset of a partition of a topic.
    pub fn get(&self, topic: &str, partition: u32) -> (offset: Option<u64>)
        ensures
            offset == if self@.contains_key((topic@, partition)) {
                Some(self@[(topic@, partition)])
            } else {
                None
            },
    {
        match self.find_topic(topic) {
            Some(i) => {
                proof {
                    lemma_topic_position(self.listing(), topic@);
                    assert(self.listing()[i as int] == self.topics@[i as int]@);
                    lemma_pair_position(self.topics@[i as int].partitions@, partition);
                }
                match Self::find_partition(&self.topics[i].partitions, partition) {
                    Some(j) => Some(self.topics[i].partitions[j].1),
                    None => None,
                }
            },
            None => None,
        }
    }

    /// Sets all offsets of another value: where both have one for a partition,
    /// the other's counts.
    pub fn merge(&mut self, other: &KafkaOffsets)
        requires
            other.wf(),
        ensures
            final(self)@ == old(self)@.union_prefer_right(other@),
            old(self).wf() ==> final(self).wf(),
    {
        let ghost all = other.listing();
        let mut i: usize = 0;
        while i < other.topics.len()
            invariant
                all == topic_views(other.topics@),
                i <= other.topics@.len(),
                self@ == apply_topics(old(self)@, all.take(i as int)),
                old(self).wf() ==> self.wf(),
            decreases other.topics@.len() - i,
        {
            let group: &TopicOffsets = &other.topics[i];
            let ghost before = self@;
            let ghost pairs = group.partitions@;
            let mut j: usize = 0;
            while j < group.partitions.len()
                invariant
                    pairs == group.partitions@,
                    j <= pairs.len(),
                    self@ == apply_pairs(before, group.topic@, pairs.take(j as int)),
                    old(self).wf() ==> self.wf(),
                decreases pairs.len() - j,
            {
                assert(pairs.take(j + 1).drop_last() =~= pairs.take(j as int));
                let (partition, offset): (u32, u64) = group.partitions[j];
                self.set(group.topic.as_str(), partition, offset);
                j += 1;
            }
            proof {
                assert(pairs.take(j as int) =~= pairs);
                assert(all.take(i + 1).drop_last() =~= all.take(i as int));
                assert(all.take(i + 1).last() == group@);
            }
            i += 1;
        }
        proof {
            assert(all.take(i as int) =~= all);
            lemma_apply_topics(old(self)@, all);
        }
    }

    /// Sets the committed positions of a topic. A negative position stands for
    /// none and is passed over.
    pub fn record_committed(&mut self, topic: &str, committed: &[(i32, i64)])
        ensures
            final(self)@ == apply_committed(old(self)@, topic@, committed@),
            (forall|i: int, j: int|
                0 <= i < j < committed@.len() ==> (#[trigger] committed@[i]).0 != (
                #[trigger] committed@[j]).0) ==> forall|k: int|
                0 <= k < committed@.len() && (#[trigger] committed@[k]).1 >= 0 ==> {
                    &&& final(self)@.contains_key((topic@, committed@[k].0 as u32))
                    &&& final(self)@[(topic@, committed@[k].0 as u32)] == committed@[k].1
                },
            forall|key: (Seq<char>, u32)|
                (forall|k: int|
                    0 <= k < committed@.len() && (#[trigger] committed@[k]).1 >= 0 ==> key != (
                        topic@,
                        committed@[k].0 as u32,
                    )) ==> {
                    &&& #[trigger] final(self)@.contains_key(key) == old(self)@.contains_key(key)
                    &&& old(self)@.contains_key(key) ==> final(self)@[key] == old(self)@[key]
                },
            old(self).wf() ==> final(self).wf(),
    {
        let mut i: usize = 0;
        while i < committed.len()
            invariant
                i <= committed@.len(),
                self@ == apply_committed(old(self)@, topic@, committed@.take(i as int)),
                old(self).wf() ==> self.wf(),
            decreases committed@.len() - i,
        {
            assert(committed@.take(i + 1).drop_last() =~= committed@.take(i as int));
            let (partition, position): (i32, i64) = committed[i];
            if position >= 0 {
                self.set(topic, partition as u32, position as u64);
            }
            i += 1;
        }
        proof {
            assert(committed@.take(i as int) =~= committed@);
            let before = old(self)@;
            assert forall|key: (Seq<char>, u32)|
                (forall|k: int|
                    0 <= k < committed@.len() && (#[trigger] committed@[k]).1 >= 0 ==> key != (
                        topic@,
                        committed@[k].0 as u32,
                    )) implies (#[trigger] self@.contains_key(key) == before.contains_key(key) && (
            before.contains_key(key) ==> self@[key] == before[key])) by {
                uncommitted_offsets_stay(before, topic@, committed@, key);
            }
            if forall|i: int, j: int|
                0 <= i < j < committed@.len() ==> (#[trigger] committed@[i]).0 != (
                #[trigger] committed@[j]).0 {
                assert forall|k: int|
                    0 <= k < committed@.len() && (#[trigger] committed@[k]).1 >= 0 implies (
                self@.contains_key((topic@, committed@[k].0 as u32)) && self@[(
                    topic@,
                    committed@[k].0 as u32,
                )] == committed@[k].1) by {
                    committed_positions_read_back(before, topic@, committed@, k);
                }
            }
        }
    }

    /// Whether another value has the same offset for every partition that is
    /// listed here.
    fn agrees(&self, other: &KafkaOffsets) -> (agrees: bool)
        ensures
            agrees == self@.submap_of(other@),
    {
        let ghost all = self.listing();
        let mut i: usize = 0;
        while i < self.topics.len()
            invariant
                all == self.listing(),
                all == topic_views(self.topics@),
                i <= self.topics@.len(),
                forall|a: int, b: int|
                    0 <= a < i && 0 <= b < all[a].partitions.len() ==> same_at(
                        self@,
                        other@,
                        all[a].topic,
                        (#[trigger] all[a].partitions[b]).0,
                    ),
            decreases self.topics@.len() - i,
        {
            let group: &TopicOffsets = &self.topics[i];
            assert(all[i as int] == group@);
            let mut j: usize = 0;
            while j < group.partitions.len()
                invariant
                    i < all.len(),
                    all[i as int] == group@,
                    all == self.listing(),
                    j <= group.partitions@.len(),
                    forall|a: int, b: int|
                        0 <= a < i && 0 <= b < all[a].partitions.len() ==> same_at(
                            self@,
                            other@,
                            all[a].topic,
                            (#[trigger] all[a].partitions[b]).0,
                        ),
                    forall|b: int|
                        0 <= b < j ==> same_at(
                            self@,
                            other@,
                            group.topic@,
                            (#[trigger] group.partitions@[b]).0,
                        ),
                decreases group.partitions@.len() - j,
            {
                let partition: u32 = group.partitions[j].0;
                proof {
                    lemma_topic_position(all, group.topic@);
                    lemma_pair_position(group.partitions@, partition);
                }
                let mine: Option<u64> = self.get(group.topic.as_str(), partition);
                let theirs: Option<u64> = other.get(group.topic.as_str(), partition);
                let same: bool = match (mine, theirs) {
                    (Some(a), Some(b)) => a == b,
                    (Some(_), None) => false,
                    (None, _) => true,
                };
                if !same {
                    assert(self@.contains_key((group.topic@, partition)));
                    return false;
                }
                j += 1;
            }
            i += 1;
        }
        proof {
            assert forall|key: (Seq<char>, u32)| #[trigger] self@.contains_key(key) implies (
            other@.contains_key(key) && self@[key] == other@[key]) by {
                lemma_topic_position(all, key.0);
                let a = topic_position(all, key.0)->0;
                lemma_pair_position(all[a].partitions, key.1);
                let b = pair_position(all[a].partitions, key.1)->0;
                assert(all[a].partitions[b].0 == key.1);
                assert(same_at(self@, other@, all[a].topic, all[a].partitions[b].0));
                assert((key.0, key.1) == key);
            }
        }
        true
    }

    /// All offsets, topic by topic.
    pub fn inner(&self) -> (topics: &[TopicOffsets])
        ensures
            topic_views(topics@) == self.listing(),
    {
        self.topics.as_slice()
    }
}

/// Where the first map has an offset for a partition, the second has the same.
spec fn same_at(
    mine: Map<(Seq<char>, u32), u64>,
    theirs: Map<(Seq<char>, u32), u64>,
    topic: Seq<char>,
    partition: u32,
) -> bool {
    mine.contains_key((topic, partition)) ==> theirs.contains_key((topic, partition)) && mine[(
        topic,
        partition,
    )] == theirs[(topic, partition)]
}

impl PartialEq for KafkaOffsets {
    /// Equal values have the same offsets, in whichever order they were set.
    fn eq(&self, other: &KafkaOffsets) -> (equal: bool) {
        let equal: bool = self.agrees(other) && other.agrees(self);
        proof {
            if equal {
                assert(self@ =~= other@);
            }
        }
        equal
    }
}

impl vstd::std_specs::cmp::PartialEqSpecImpl for KafkaOffsets {
    open spec fn obeys_eq_spec() -> bool {
        true
    }

    open spec fn eq_spec(&self, other: &KafkaOffsets) -> bool {
        self@ == other@
    }
}

impl Clone for TopicOffsets {
    fn clone(&self) -> (copy: Self)
        ensures
            copy@ == self@,
    {
        let mut partitions: Vec<(u32, u64)> = Vec::with_capacity(self.partitions.len());
        let mut i: usize = 0;
        while i < self.partitions.len()
            invariant
                i <= self.partitions@.len(),
                partitions@ =~= self.partitions@.take(i as int),
            decreases self.partitions@.len() - i,
        {
            partitions.push(self.partitions[i]);
            i += 1;
        }
        assert(partitions@ =~= self.partitions@);
        TopicOffsets { topic: self.topic.clone(), partitions }
    }
}

impl Clone for KafkaOffsets {
    fn clone(&self) -> (copy: Self)
        ensures
            copy.listing() == self.listing(),
            copy@ == self@,
    {
        let mut topics: Vec<TopicOffsets> = Vec::with_capacity(self.topics.len());
        let mut i: usize = 0;
        while i < self.topics.len()
            invariant
                i <= self.topics@.len(),
                topics@.len() == i,
                topic_views(topics@) =~= self.listing().take(i as int),
            decreases self.topics@.len() - i,
        {
            let ghost before = topics@;
            topics.push(self.topics[i].clone());
            assert(topic_views(topics@) =~= topic_views(before).push(self.topics@[i as int]@));
            i += 1;
        }
        let copy = KafkaOffsets { topics };
        assert(copy.listing() =~= self.listing());
        copy
    }
}

/// Setting an offset inside the group of its topic.
proof fn lemma_set_in_topic(
    before: Seq<TopicView>,
    i: int,
    changed: TopicView,
    topic: Seq<char>,
    partition: u32,
    offset: u64,
)
    requires
        topic_position(before, topic) == Some(i),
        changed.topic == topic,
        match pair_position(before[i].partitions, partition) {
            Some(j) => changed.partitions == before[i].partitions.update(j, (partition, offset)),
            None => changed.partitions == before[i].partitions.push((partition, offset)),
        },
    ensures
        offset_map(before.update(i, changed)) == offset_map(before).insert(
            (topic, partition),
            offset,
        ),
        distinct(before) ==> distinct(before.update(i, changed)),
{
    let after = before.update(i, changed);
    let pairs = before[i].partitions;
    lemma_topic_position(before, topic);
    lemma_pair_position(pairs, partition);
    assert forall|t: Seq<char>, p: u32| #[trigger]
        lookup(after, t, p) == if t == topic && p == partition {
            Some(offset)
        } else {
            lookup(before, t, p)
        } by {
        lemma_topic_position(before, t);
        lemma_topic_position(after, t);
        lemma_same_topic_position(before, i, changed, t);
        if t == topic {
            lemma_pair_position(pairs, p);
            lemma_pair_position(changed.partitions, p);
            if let Some(j) = pair_position(changed.partitions, p) {
                if let Some(k) = pair_position(pairs, p) {
                    assert(j == k) by {
                        if j < k {
                            assert(changed.partitions[j].0 == pairs[j].0);
                        } else if k < j {
                            assert(changed.partitions[k].0 == pairs[k].0);
                        }
                    }
                } else {
                    if j < pairs.len() {
                        assert(changed.partitions[j].0 == pairs[j].0);
                    }
                }
            } else {
                if let Some(k) = pair_position(pairs, p) {
                    assert(changed.partitions[k].0 == pairs[k].0);
                } else if p == partition {
                    assert(changed.partitions[changed.partitions.len() - 1].0 == partition);
                }
            }
        } else {
            if let Some(j) = topic_position(before, t) {
                assert(after[j] == before[j]);
            }
        }
    }
    assert(offset_map(after) =~= offset_map(before).insert((topic, partition), offset));
    if distinct(before) {
        assert forall|a: int, b: int| 0 <= a < b < after.len() implies (#[trigger] after[a]).topic
            != (#[trigger] after[b]).topic by {
            assert(before[a].topic != before[b].topic);
        }
        assert(distinct_pairs(before[i].partitions));
        assert forall|a: int| 0 <= a < after.len() implies distinct_pairs(
            (#[trigger] after[a]).partitions,
        ) by {
            if a == i {
                assert forall|x: int, y: int| 0 <= x < y < changed.partitions.len() implies (
                #[trigger] changed.partitions[x]).0 != (#[trigger] changed.partitions[y]).0 by {
                    if y < pairs.len() {
                        assert(pairs[x].0 != pairs[y].0);
                        assert(changed.partitions[x].0 == pairs[x].0);
                        assert(changed.partitions[y].0 == pairs[y].0);
                    } else {
                        assert(changed.partitions[x] == pairs[x]);
                    }
                }
            } else {
                assert(distinct_pairs(before[a].partitions));
            }
        }
    }
}

/// Changing a group but not its topic moves no topic.
proof fn lemma_same_topic_position(before: Seq<TopicView>, i: int, changed: TopicView, t: Seq<char>)
    requires
        0 <= i < before.len(),
        changed.topic == before[i].topic,
    ensures
        topic_position(before.update(i, changed), t) == topic_position(before, t),
    decreases before.len(),
{
    let after = before.update(i, changed);
    if i == before.len() - 1 {
        assert(after.drop_last() =~= before.drop_last());
    } else {
        assert(after.drop_last() =~= before.drop_last().update(i, changed));
        lemma_same_topic_position(before.drop_last(), i, changed, t);
    }
}

/// Setting an offset of a topic that is not listed yet.
proof fn lemma_set_new_topic(
    before: Seq<TopicView>,
    group: TopicView,
    topic: Seq<char>,
    partition: u32,
    offset: u64,
)
    requires
        topic_position(before, topic) is None,
        group.topic == topic,
        group.partitions == seq![(partition, offset)],
    ensures
        offset_map(before.push(group)) == offset_map(before).insert((topic, partition), offset),
        distinct(before) ==> distinct(before.push(group)),
{
    let after = before.push(group);
    lemma_topic_position(before, topic);
    assert(after.drop_last() =~= before);
    assert forall|t: Seq<char>, p: u32| #[trigger]
        lookup(after, t, p) == if t == topic && p == partition {
            Some(offset)
        } else {
            lookup(before, t, p)
        } by {
        lemma_topic_position(before, t);
        lemma_pair_position(group.partitions, p);
        if let Some(j) = topic_position(before, t) {
            assert(after[j] == before[j]);
        } else if t == topic {
            assert(after[before.len() as int] == group);
            assert(group.partitions[0].0 == partition);
        }
    }
    assert(offset_map(after) =~= offset_map(before).insert((topic, partition), offset));
    if distinct(before) {
        assert forall|a: int| 0 <= a < after.len() implies distinct_pairs(
            (#[trigger] after[a]).partitions,
        ) by {
            if a < before.len() {
                assert(distinct_pairs(before[a].partitions));
            }
        }
    }
}

/// Offsets are listed topic by topic, in their order.
pub proof fn topics_are_shown_in_order(topics: Seq<TopicOffsets>, i: int)
    requires
        0 <= i < topics.len(),
    ensures
        topic_views(topics).len() == topics.len(),
        topic_views(topics)[i] == topics[i]@,
{
}

} // verus!
