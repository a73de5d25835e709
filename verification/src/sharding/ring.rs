//! A consistent-hash ring with virtual nodes.

use crate::text;
use crate::text::push_decimal;
use vstd::prelude::*;
use vstd::string::*;
use vstd::utf8::encode_utf8;

verus! {

/// The points of a ring: each position that is taken, with the shard that takes it.
pub type Points = Map<u64, u64>;

/// The value from which the hash of a text starts.
pub const HASH_BASIS: u64 = 0xcbf29ce484222325;

/// The factor by which each byte of a text spreads.
pub const HASH_PRIME: u64 = 0x100000001b3;

/// The factors that mix the bits at the end.
pub const MIX_FIRST: u64 = 0xff51afd7ed558ccd;

pub const MIX_SECOND: u64 = 0xc4ceb9fe1a85ec53;

/// The product of two 64-bit numbers, wrapping.
pub open spec fn product(a: u64, b: u64) -> u64 {
    vstd::wrapping::u64_specs::wrapping_mul(a, b)
}

/// The FNV-1a hash of some bytes.
pub open spec fn fnv(bytes: Seq<u8>) -> u64
    decreases bytes.len(),
{
    if bytes.len() == 0 {
        HASH_BASIS
    } else {
        product(fnv(bytes.drop_last()) ^ (bytes.last() as u64), HASH_PRIME)
    }
}

/// Fold the upper bits of a hash into the lower ones.
pub open spec fn folded(hash: u64) -> u64 {
    hash ^ (hash >> 33)
}

/// Where a text stands on the ring.
pub open spec fn position_of(text: Seq<char>) -> u64 {
    folded(
        product(folded(product(folded(fnv(encode_utf8(text))), MIX_FIRST)), MIX_SECOND),
    )
}

/// The name of a virtual node.
pub open spec fn virtual_node(shard_id: u64, index: nat) -> Seq<char> {
    "shard-"@ + text::decimal(shard_id as nat) + "-vnode-"@ + text::decimal(index)
}

/// The points of a ring to which the first `count` virtual nodes of a shard were added.
pub open spec fn with_shard(points: Points, shard_id: u64, count: nat) -> Points
    decreases count,
{
    if count == 0 {
        points
    } else {
        let index = (count - 1) as nat;
        with_shard(points, shard_id, index).insert(
            position_of(virtual_node(shard_id, index)),
            shard_id,
        )
    }
}

/// The points of a ring from which a shard was removed.
pub open spec fn without_shard(points: Points, shard_id: u64) -> Points {
    points.remove_keys(
        points.dom().filter(|position: u64| points[position] == shard_id),
    )
}

/// Whether `next` is the first point that is met clockwise from `from`: the lowest position from
/// `from` on, or, past the last point, the lowest of all.
pub open spec fn is_next(points: Points, from: u64, next: u64) -> bool {
    &&& points.contains_key(next)
    &&& if next >= from {
        forall|other: u64| #[trigger]
            points.contains_key(other) && other >= from ==> next <= other
    } else {
        forall|other: u64| #[trigger] points.contains_key(other) ==> next <= other < from
    }
}

/// The shard that owns a position: none if the ring has no points.
pub open spec fn owner(points: Points, position: u64) -> Option<u64> {
    if exists|next: u64| is_next(points, position, next) {
        Some(points[choose|next: u64| is_next(points, position, next)])
    } else {
        None
    }
}

/// Only one point is the next.
pub proof fn lemma_next_is_unique(points: Points, from: u64, next: u64)
    requires
        is_next(points, from, next),
    ensures
        owner(points, from) == Some(points[next]),
        forall|other: u64| is_next(points, from, other) ==> other == next,
{
    let chosen = choose|other: u64| is_next(points, from, other);
    assert(is_next(points, from, chosen));
    assert(points.contains_key(chosen));
    assert(points.contains_key(next));
}

/// A consistent-hash ring. Each shard has as many points on it as there are virtual nodes.
pub struct HashRing {
    /// The points, in the order of their positions.
    points: Vec<(u64, u64)>,
    /// How many virtual nodes each shard gets.
    num_virtual_nodes: u32,
}

/// The positions go up strictly.
spec fn is_sorted(points: Seq<(u64, u64)>) -> bool {
    forall|i: int, j: int|
        #![trigger points[i], points[j]]
        0 <= i < j < points.len() ==> points[i].0 < points[j].0
}

/// Whether some point is at the position.
spec fn is_taken(points: Seq<(u64, u64)>, position: u64) -> bool {
    exists|i: int| 0 <= i < points.len() && (#[trigger] points[i]).0 == position
}

/// Which point is at the position.
spec fn index_at(points: Seq<(u64, u64)>, position: u64) -> int {
    choose|i: int| 0 <= i < points.len() && (#[trigger] points[i]).0 == position
}

/// The points as a map.
spec fn as_map(points: Seq<(u64, u64)>) -> Points {
    Map::new(
        |position: u64| is_taken(points, position),
        |position: u64| points[index_at(points, position)].1,
    )
}

impl View for HashRing {
    type V = Points;

    closed spec fn view(&self) -> Points {
        as_map(self.points@)
    }
}

proof fn lemma_index_at(points: Seq<(u64, u64)>, i: int)
    requires
        is_sorted(points),
        0 <= i < points.len(),
    ensures
        is_taken(points, points[i].0),
        index_at(points, points[i].0) == i,
        as_map(points).contains_key(points[i].0),
        as_map(points)[points[i].0] == points[i].1,
{
    let j = index_at(points, points[i].0);
    assert(points[i].0 == points[i].0);
    assert(0 <= j < points.len() && points[j].0 == points[i].0);
}

/// Maps of sorted points are the same if the points are, one for one.
proof fn lemma_as_map(points: Seq<(u64, u64)>, map: Points)
    requires
        is_sorted(points),
        forall|i: int|
            0 <= i < points.len() ==> map.contains_key((#[trigger] points[i]).0)
                && map[points[i].0] == points[i].1,
        forall|position: u64| #[trigger] map.contains_key(position) ==> is_taken(points, position),
    ensures
        as_map(points) == map,
{
    assert forall|position: u64| #[trigger] as_map(points).contains_key(position) implies
        map.contains_key(position) && as_map(points)[position] == map[position] by {
        let i = index_at(points, position);
        assert(points[i].0 == position);
        lemma_index_at(points, i);
    }
    assert(as_map(points) =~= map);
}

impl HashRing {
    /// The points are in order.
    pub closed spec fn wf(&self) -> bool {
        is_sorted(self.points@)
    }

    /// How many virtual nodes each shard gets.
    pub closed spec fn virtual_nodes(&self) -> u32 {
        self.num_virtual_nodes
    }

    /// An empty ring.
    pub fn new(num_virtual_nodes: u32) -> (ring: Self)
        ensures
            ring.wf(),
            ring@ == Map::<u64, u64>::empty(),
            ring.virtual_nodes() == num_virtual_nodes,
    {
        let ring = HashRing { points: Vec::new(), num_virtual_nodes };
        assert(ring@ =~= Map::<u64, u64>::empty());
        ring
    }

    /// Where a text stands on the ring.
    fn hash(&self, key: &str) -> (position: u64)
        ensures
            position == position_of(key@),
    {
        let bytes = key.as_bytes();
        let mut hash: u64 = HASH_BASIS;
        let mut i: usize = 0;
        proof {
            assert(bytes@.take(0) =~= Seq::empty());
        }
        while i < bytes.len()
            invariant
                i <= bytes@.len(),
                hash == fnv(bytes@.take(i as int)),
            decreases bytes@.len() - i,
        {
            proof {
                assert(bytes@.take(i + 1).drop_last() =~= bytes@.take(i as int));
            }
            hash = (hash ^ (bytes[i] as u64)).wrapping_mul(HASH_PRIME);
            i += 1;
        }
        proof {
            assert(bytes@.take(i as int) =~= bytes@);
        }
        hash = hash ^ (hash >> 33);
        hash = hash.wrapping_mul(MIX_FIRST);
        hash = hash ^ (hash >> 33);
        hash = hash.wrapping_mul(MIX_SECOND);
        hash = hash ^ (hash >> 33);
        hash
    }

    /// The first point from a position on: the number of points if there is none.
    fn first_from(&self, position: u64) -> (at: usize)
        requires
            self.wf(),
        ensures
            at <= self.points@.len(),
            forall|i: int| 0 <= i < at ==> (#[trigger] self.points@[i]).0 < position,
            forall|i: int|
                at <= i < self.points@.len() ==> (#[trigger] self.points@[i]).0 >= position,
    {
        let mut low: usize = 0;
        let mut high: usize = self.points.len();
        while low < high
            invariant
                is_sorted(self.points@),
                low <= high <= self.points@.len(),
                forall|i: int| 0 <= i < low ==> (#[trigger] self.points@[i]).0 < position,
                forall|i: int|
                    high <= i < self.points@.len() ==> (#[trigger] self.points@[i]).0 >= position,
            decreases high - low,
        {
            let middle: usize = low + (high - low) / 2;
            let ghost pivot = self.points@[middle as int];
            if self.points[middle].0 < position {
                assert forall|i: int| 0 <= i <= middle implies (#[trigger] self.points@[i]).0
                    < position by {
                    if i < middle {
                        assert(self.points@[i].0 < pivot.0);
                    }
                }
                low = middle + 1;
            } else {
                assert forall|i: int| middle <= i < self.points@.len() implies (
                #[trigger] self.points@[i]).0 >= position by {
                    if i > middle {
                        assert(pivot.0 < self.points@[i].0);
                    }
                }
                high = middle;
            }
        }
        low
    }

    /// Take a position for a shard, whoever had it before.
    fn take(&mut self, position: u64, shard_id: u64)
        requires
            old(self).wf(),
        ensures
            final(self).wf(),
            final(self)@ == old(self)@.insert(position, shard_id),
            final(self).virtual_nodes() == old(self).virtual_nodes(),
    {
        let at: usize = self.first_from(position);
        let ghost before = self.points@;
        let ghost expected = self@.insert(position, shard_id);
        if at < self.points.len() && self.points[at].0 == position {
            self.points[at] = (position, shard_id);
            proof {
                let after = self.points@;
                assert forall|i: int| 0 <= i < after.len() implies expected.contains_key(
                    (#[trigger] after[i]).0,
                ) && expected[after[i].0] == after[i].1 by {
                    lemma_index_at(before, i);
                    if i != at {
                        assert(before[i].0 != before[at as int].0);
                    }
                }
                assert forall|p: u64| #[trigger] expected.contains_key(p) implies is_taken(
                    after,
                    p,
                ) by {
                    if p == position {
                        assert(after[at as int].0 == p);
                    } else {
                        let i = index_at(before, p);
                        assert(before[i].0 == p);
                        assert(after[i].0 == p);
                    }
                }
                assert forall|i: int, j: int|
                    #![trigger after[i], after[j]]
                    0 <= i < j < after.len() implies after[i].0 < after[j].0 by {
                    assert(before[i].0 < before[j].0);
                }
                lemma_as_map(after, expected);
            }
        } else {
            self.points.insert(at, (position, shard_id));
            proof {
                let after = self.points@;
                assert forall|i: int| 0 <= i < after.len() implies expected.contains_key(
                    (#[trigger] after[i]).0,
                ) && expected[after[i].0] == after[i].1 by {
                    if i < at {
                        assert(after[i] == before[i]);
                        lemma_index_at(before, i);
                    } else if i > at {
                        assert(after[i] == before[i - 1]);
                        lemma_index_at(before, i - 1);
                        if i - 1 > at {
                            assert(before[at as int].0 < before[i - 1].0);
                        }
                    }
                }
                assert forall|p: u64| #[trigger] expected.contains_key(p) implies is_taken(
                    after,
                    p,
                ) by {
                    if p == position {
                        assert(after[at as int].0 == p);
                    } else {
                        let i = index_at(before, p);
                        assert(before[i].0 == p);
                        if i < at {
                            assert(after[i].0 == p);
                        } else {
                            assert(after[i + 1].0 == p);
                        }
                    }
                }
                assert forall|i: int, j: int|
                    #![trigger after[i], after[j]]
                    0 <= i < j < after.len() implies after[i].0 < after[j].0 by {
                    let a = if i < at {
                        i
                    } else {
                        i - 1
                    };
                    let b = if j < at {
                        j
                    } else {
                        j - 1
                    };
                    if i == at {
                        assert(before[b].0 >= position);
                        if b > at {
                            assert(before[at as int].0 < before[b].0);
                        }
                    } else if j == at {
                        assert(before[a].0 < position);
                    } else {
                        assert(before[a].0 < before[b].0);
                    }
                }
                lemma_as_map(after, expected);
            }
        }
    }

    /// Add a shard to the ring, with all its virtual nodes.
    pub fn add_shard(&mut self, shard_id: u64)
        requires
            old(self).wf(),
        ensures
            final(self).wf(),
            final(self)@ == with_shard(old(self)@, shard_id, old(self).virtual_nodes() as nat),
            final(self).virtual_nodes() == old(self).virtual_nodes(),
    {
        let ghost before = self@;
        let mut i: u32 = 0;
        while i < self.num_virtual_nodes
            invariant
                self.wf(),
                i <= self.num_virtual_nodes,
                self.num_virtual_nodes == old(self).virtual_nodes(),
                self@ == with_shard(before, shard_id, i as nat),
            decreases self.num_virtual_nodes - i,
        {
            let mut name: String = String::new();
            name.append("shard-");
            push_decimal(&mut name, shard_id);
            name.append("-vnode-");
            push_decimal(&mut name, i as u64);
            assert(name@ =~= virtual_node(shard_id, i as nat));
            let position: u64 = self.hash(name.as_str());
            self.take(position, shard_id);
            i += 1;
        }
    }

    /// Remove a shard from the ring. What it owned falls to the next shard clockwise.
    pub fn remove_shard(&mut self, shard_id: u64)
        requires
            old(self).wf(),
        ensures
            final(self).wf(),
            final(self)@ == without_shard(old(self)@, shard_id),
            final(self).virtual_nodes() == old(self).virtual_nodes(),
    {
        let ghost before = self.points@;
        let mut kept: Vec<(u64, u64)> = Vec::new();
        let mut i: usize = 0;
        while i < self.points.len()
            invariant
                i <= self.points@.len(),
                self.points@ == before,
                is_sorted(before),
                is_sorted(kept@),
                forall|j: int|
                    0 <= j < kept@.len() ==> (#[trigger] kept@[j]).1 != shard_id
                        && before.contains(kept@[j]),
                forall|j: int|
                    0 <= j < kept@.len() && i < before.len() ==> (#[trigger] kept@[j]).0
                        < before[i as int].0,
                forall|j: int|
                    0 <= j < i && (#[trigger] before[j]).1 != shard_id ==> kept@.contains(
                        before[j],
                    ),
            decreases self.points@.len() - i,
        {
            let point: (u64, u64) = self.points[i];
            let ghost earlier = kept@;
            assert(point == before[i as int]);
            if point.1 != shard_id {
                kept.push(point);
                assert(kept@[kept@.len() - 1] == point);
            }
            assert forall|j: int| 0 <= j < earlier.len() implies kept@[j] == #[trigger] earlier[j] by {}
            assert forall|j: int|
                0 <= j < i + 1 && (#[trigger] before[j]).1 != shard_id implies kept@.contains(
                before[j],
            ) by {
                if j < i {
                    let m = choose|m: int| 0 <= m < earlier.len() && earlier[m] == before[j];
                    assert(kept@[m] == before[j]);
                }
            }
            proof {
                if i + 1 < before.len() {
                    assert(before[i as int].0 < before[i + 1].0);
                }
            }
            i += 1;
        }
        self.points = kept;
        proof {
            let expected = without_shard(as_map(before), shard_id);
            assert forall|j: int| 0 <= j < kept@.len() implies expected.contains_key(
                (#[trigger] kept@[j]).0,
            ) && expected[kept@[j].0] == kept@[j].1 by {
                let m = choose|m: int| 0 <= m < before.len() && before[m] == kept@[j];
                lemma_index_at(before, m);
            }
            assert forall|p: u64| #[trigger] expected.contains_key(p) implies is_taken(
                kept@,
                p,
            ) by {
                let m = index_at(before, p);
                assert(before[m].0 == p);
                lemma_index_at(before, m);
                let j = choose|j: int| 0 <= j < kept@.len() && kept@[j] == before[m];
                assert(kept@[j].0 == p);
            }
            lemma_as_map(kept@, expected);
        }
    }

    /// The shard that owns a key: `None` if the ring is empty.
    pub fn get_shard(&self, key: &str) -> (shard: Option<u64>)
        requires
            self.wf(),
        ensures
            shard == owner(self@, position_of(key@)),
    {
        if self.points.len() == 0 {
            proof {
                assert forall|next: u64| !is_next(self@, position_of(key@), next) by {
                    assert(!self@.contains_key(next));
                }
            }
            return None;
        }
        let hash: u64 = self.hash(key);
        let found: usize = self.first_from(hash);
        let at: usize = if found < self.points.len() { found } else { 0 };
        proof {
            let next = self.points@[at as int].0;
            lemma_index_at(self.points@, at as int);
            assert forall|other: u64| #[trigger] self@.contains_key(other) implies {
                &&& next >= hash && other >= hash ==> next <= other
                &&& next < hash ==> next <= other < hash
            } by {
                let i = index_at(self.points@, other);
                assert(self.points@[i].0 == other);
                if at < i {
                    assert(self.points@[at as int].0 < self.points@[i].0);
                }
            }
            assert(is_next(self@, hash, next));
            lemma_next_is_unique(self@, hash, next);
        }
        Some(self.points[at].1)
    }

    /// How many shards are on the ring.
    pub fn shard_count(&self) -> (count: usize)
        requires
            self.wf(),
        ensures
            self@.values().finite(),
            count == self@.values().len(),
    {
        let ids: Vec<u64> = self.shard_ids();
        proof {
            assert(ids@.no_duplicates());
            ids@.unique_seq_to_set();
            assert(ids@.to_set() =~= self@.values());
        }
        ids.len()
    }

    /// The shards on the ring, each once, in ascending order.
    pub fn shard_ids(&self) -> (ids: Vec<u64>)
        requires
            self.wf(),
        ensures
            forall|i: int, j: int|
                #![trigger ids@[i], ids@[j]]
                0 <= i < j < ids@.len() ==> ids@[i] < ids@[j],
            forall|id: u64| #[trigger] ids@.contains(id) <==> self@.values().contains(id),
    {
        let mut ids: Vec<u64> = Vec::new();
        let mut i: usize = 0;
        while i < self.points.len()
            invariant
                i <= self.points@.len(),
                forall|a: int, b: int|
                    #![trigger ids@[a], ids@[b]]
                    0 <= a < b < ids@.len() ==> ids@[a] < ids@[b],
                forall|j: int|
                    0 <= j < i ==> ids@.contains((#[trigger] self.points@[j]).1),
                forall|a: int|
                    0 <= a < ids@.len() ==> is_point_of(
                        self.points@,
                        #[trigger] ids@[a],
                    ),
            decreases self.points@.len() - i,
        {
            let id: u64 = self.points[i].1;
            assert(self.points@[i as int].1 == id);
            add_id(&mut ids, id);
            i += 1;
        }
        proof {
            assert forall|id: u64| #[trigger] ids@.contains(id) <==> self@.values().contains(
                id,
            ) by {
                if ids@.contains(id) {
                    let a = choose|a: int| 0 <= a < ids@.len() && ids@[a] == id;
                    assert(is_point_of(self.points@, ids@[a]));
                    let j = choose|j: int|
                        0 <= j < self.points@.len() && (#[trigger] self.points@[j]).1 == id;
                    lemma_index_at(self.points@, j);
                    assert(self@.values().contains(id));
                }
                if self@.values().contains(id) {
                    let p = choose|p: u64| #[trigger] self@.dom().contains(p) && self@[p] == id;
                    let j = index_at(self.points@, p);
                    assert(self.points@[j].0 == p);
                    assert(ids@.contains(self.points@[j].1));
                }
            }
        }
        ids
    }
}

/// Whether the shard has a point.
spec fn is_point_of(points: Seq<(u64, u64)>, id: u64) -> bool {
    exists|j: int| 0 <= j < points.len() && (#[trigger] points[j]).1 == id
}

/// Put a number in its place among ascending numbers, unless it is there.
fn add_id(ids: &mut Vec<u64>, id: u64)
    requires
        forall|i: int, j: int|
            #![trigger old(ids)@[i], old(ids)@[j]]
            0 <= i < j < old(ids)@.len() ==> old(ids)@[i] < old(ids)@[j],
    ensures
        forall|i: int, j: int|
            #![trigger final(ids)@[i], final(ids)@[j]]
            0 <= i < j < final(ids)@.len() ==> final(ids)@[i] < final(ids)@[j],
        forall|other: u64| #[trigger]
            final(ids)@.contains(other) <==> old(ids)@.contains(other) || other == id,
        forall|i: int|
            0 <= i < final(ids)@.len() ==> old(ids)@.contains(#[trigger] final(ids)@[i])
                || final(ids)@[i] == id,
{
    let ghost before = ids@;
    let mut at: usize = 0;
    while at < ids.len() && ids[at] < id
        invariant
            at <= ids@.len(),
            ids@ == before,
            forall|i: int| 0 <= i < at ==> #[trigger] before[i] < id,
        decreases ids@.len() - at,
    {
        at += 1;
    }
    if at < ids.len() && ids[at] == id {
        assert(before[at as int] == id);
        return;
    }
    ids.insert(at, id);
    proof {
        let after = ids@;
        assert(after[at as int] == id);
        assert forall|other: u64| #[trigger] after.contains(other) <==> before.contains(other)
            || other == id by {
            if before.contains(other) {
                let i = choose|i: int| 0 <= i < before.len() && before[i] == other;
                if i < at {
                    assert(after[i] == other);
                } else {
                    assert(after[i + 1] == other);
                }
            }
            if after.contains(other) && other != id {
                let i = choose|i: int| 0 <= i < after.len() && after[i] == other;
                if i < at {
                    assert(before[i] == other);
                } else {
                    assert(before[i - 1] == other);
                }
            }
        }
        assert forall|i: int, j: int|
            #![trigger after[i], after[j]]
            0 <= i < j < after.len() implies after[i] < after[j] by {
            let a = if i < at {
                i
            } else {
                i - 1
            };
            let b = if j < at {
                j
            } else {
                j - 1
            };
            if i == at {
                assert(before[at as int] > id);
                if b > at {
                    assert(before[at as int] < before[b]);
                }
            } else if j != at {
                assert(before[a] < before[b]);
            }
        }
        assert forall|i: int| 0 <= i < after.len() implies before.contains(#[trigger] after[i])
            || after[i] == id by {
            assert(after.contains(after[i]));
        }
    }
}

/// From every position some point is next, unless there is none at all.
pub proof fn lemma_next_exists(points: Points, from: u64, witness: u64) -> (next: u64)
    requires
        points.contains_key(witness),
    ensures
        is_next(points, from, next),
{
    if exists|other: u64| #[trigger] points.contains_key(other) && other >= from {
        let some = choose|other: u64| #[trigger] points.contains_key(other) && other >= from;
        lemma_lowest_from(points, from, some)
    } else {
        let lowest = lemma_lowest_from(points, 0, witness);
        assert(lowest < from);
        lowest
    }
}

/// Among the points from a position on one is the lowest.
proof fn lemma_lowest_from(points: Points, from: u64, some: u64) -> (lowest: u64)
    requires
        points.contains_key(some),
        some >= from,
    ensures
        points.contains_key(lowest),
        lowest >= from,
        forall|other: u64| #[trigger]
            points.contains_key(other) && other >= from ==> lowest <= other,
    decreases some,
{
    if exists|other: u64| #[trigger] points.contains_key(other) && from <= other < some {
        let lower = choose|other: u64| #[trigger] points.contains_key(other) && from <= other < some;
        lemma_lowest_from(points, from, lower)
    } else {
        some
    }
}

/// A key has an owner exactly if the ring has points, and the owner is a shard on the ring.
pub proof fn law_every_key_has_an_owner(points: Points, position: u64)
    ensures
        owner(points, position) is None <==> points =~= Map::<u64, u64>::empty(),
        owner(points, position) matches Some(shard) ==> points.values().contains(shard),
{
    if exists|taken: u64| points.contains_key(taken) {
        let taken = choose|taken: u64| points.contains_key(taken);
        let next = lemma_next_exists(points, position, taken);
        lemma_next_is_unique(points, position, next);
        assert(points.dom().contains(next) && points[next] == owner(points, position)->0);
    } else {
        assert(points =~= Map::<u64, u64>::empty());
        assert forall|next: u64| !is_next(points, position, next) by {
            assert(!points.contains_key(next));
        }
    }
}

/// Removing a shard moves no key of another shard, and leaves no key with the removed shard.
pub proof fn law_removal_moves_only_the_removed_shards_keys(
    points: Points,
    removed: u64,
    position: u64,
)
    ensures
        owner(points, position) != Some(removed) ==> owner(
            without_shard(points, removed),
            position,
        ) == owner(points, position),
        owner(without_shard(points, removed), position) != Some(removed),
{
    let after = without_shard(points, removed);
    law_every_key_has_an_owner(points, position);
    law_every_key_has_an_owner(after, position);
    assert forall|other: u64| #[trigger] after.contains_key(other) implies points.contains_key(
        other,
    ) && after[other] == points[other] && points[other] != removed by {}
    if owner(points, position) is Some && owner(points, position) != Some(removed) {
        let next = choose|next: u64| is_next(points, position, next);
        assert(is_next(points, position, next));
        assert(after.contains_key(next));
        assert(is_next(after, position, next));
        lemma_next_is_unique(after, position, next);
    }
    if owner(points, position) is None {
        assert(after =~= Map::<u64, u64>::empty());
    }
}

/// Adding a shard moves keys to the added shard only: every other key keeps its owner.
pub proof fn law_addition_moves_keys_only_to_the_added_shard(
    points: Points,
    added: u64,
    count: nat,
    position: u64,
)
    ensures
        ({
            let after = owner(with_shard(points, added, count), position);
            after == owner(points, position) || after == Some(added)
        }),
    decreases count,
{
    if count > 0 {
        let index = (count - 1) as nat;
        law_addition_moves_keys_only_to_the_added_shard(points, added, index, position);
        let before = with_shard(points, added, index);
        let place = position_of(virtual_node(added, index));
        let after = before.insert(place, added);
        assert(after.contains_key(place));
        let next = lemma_next_exists(after, position, place);
        lemma_next_is_unique(after, position, next);
        if next != place {
            assert forall|other: u64| #[trigger] before.contains_key(other) implies
                after.contains_key(other) by {}
            assert(is_next(before, position, next));
            lemma_next_is_unique(before, position, next);
        }
    }
}

/// An added shard takes all the positions of its virtual nodes, and no other position changes.
pub proof fn law_added_shard_takes_its_points(points: Points, added: u64, count: nat)
    ensures
        forall|index: nat|
            index < count ==> with_shard(points, added, count).contains_pair(
                position_of(#[trigger] virtual_node(added, index)),
                added,
            ),
        forall|position: u64|
            (forall|index: nat|
                index < count ==> position_of(#[trigger] virtual_node(added, index)) != position)
                ==> (#[trigger] with_shard(points, added, count).contains_key(position)
                <==> points.contains_key(position)) && with_shard(points, added, count)[position]
                == points[position],
        count > 0 ==> with_shard(points, added, count).values().contains(added),
    decreases count,
{
    if count > 0 {
        let last = (count - 1) as nat;
        law_added_shard_takes_its_points(points, added, last);
        let before = with_shard(points, added, last);
        let after = with_shard(points, added, count);
        let place = position_of(virtual_node(added, last));
        assert(after.dom().contains(place) && after[place] == added);
        assert forall|index: nat| index < count implies after.contains_pair(
            position_of(#[trigger] virtual_node(added, index)),
            added,
        ) by {
            if index < last {
                assert(before.contains_pair(position_of(virtual_node(added, index)), added));
            }
        }
        assert forall|position: u64|
            (forall|index: nat|
                index < count ==> position_of(#[trigger] virtual_node(added, index)) != position)
            implies (#[trigger] after.contains_key(position) <==> points.contains_key(position))
            && after[position] == points[position] by {
            assert(position_of(virtual_node(added, last)) != position);
            assert(before.contains_key(position) <==> points.contains_key(position));
        }
    }
}

/// Removing a shard undoes adding it, if it was not there and none of its positions was taken.
pub proof fn law_removal_undoes_addition(points: Points, added: u64, count: nat)
    requires
        !points.values().contains(added),
        forall|index: nat|
            index < count ==> !points.contains_key(
                position_of(#[trigger] virtual_node(added, index)),
            ),
    ensures
        without_shard(with_shard(points, added, count), added) == points,
{
    law_added_shard_takes_its_points(points, added, count);
    let grown = with_shard(points, added, count);
    let after = without_shard(grown, added);
    assert forall|position: u64| after.contains_key(position) <==> points.contains_key(
        position,
    ) by {
        if exists|index: nat|
            index < count && position_of(#[trigger] virtual_node(added, index)) == position {
            let index = choose|index: nat|
                index < count && position_of(#[trigger] virtual_node(added, index)) == position;
            assert(grown.contains_pair(position_of(virtual_node(added, index)), added));
        } else {
            assert(grown.contains_key(position) <==> points.contains_key(position));
            if points.contains_key(position) {
                assert(points.values().contains(points[position]));
            }
        }
    }
    assert forall|position: u64| #[trigger] points.contains_key(position) implies
        after[position] == points[position] by {
        assert forall|index: nat| index < count implies position_of(
            #[trigger] virtual_node(added, index),
        ) != position by {}
        assert(grown.contains_key(position));
    }
    assert(after =~= points);
}

/// A position belongs to the shard of the first point from there on; past the last point it belongs
/// to that of the first point of all. A ring without points has no owners.
pub proof fn law_owner_is_the_next_point_clockwise(points: Points, position: u64, next: u64)
    ensures
        points.contains_key(next) && next >= position && (forall|other: u64| #[trigger]
            points.contains_key(other) && other >= position ==> next <= other) ==> owner(
            points,
            position,
        ) == Some(points[next]),
        points.contains_key(next) && (forall|other: u64| #[trigger]
            points.contains_key(other) ==> next <= other && other < position) ==> owner(
            points,
            position,
        ) == Some(points[next]),
        (forall|other: u64| !#[trigger] points.contains_key(other)) ==> owner(points, position)
            is None,
        owner(points, position) is None ==> forall|other: u64| !#[trigger] points.contains_key(
            other,
        ),
{
    if points.contains_key(next) && next >= position && (forall|other: u64| #[trigger]
        points.contains_key(other) && other >= position ==> next <= other) {
        assert(is_next(points, position, next));
        lemma_next_is_unique(points, position, next);
    }
    if points.contains_key(next) && (forall|other: u64| #[trigger]
        points.contains_key(other) ==> next <= other && other < position) {
        assert(is_next(points, position, next));
        lemma_next_is_unique(points, position, next);
    }
    if owner(points, position) is None {
        assert forall|other: u64| !#[trigger] points.contains_key(other) by {
            if points.contains_key(other) {
                let found = lemma_next_exists(points, position, other);
                assert(is_next(points, position, found));
            }
        }
    } else {
        let found = choose|found: u64| is_next(points, position, found);
        assert(points.contains_key(found));
    }
}

/// A ring with a shard added has a point for each of its virtual nodes, and the points that it had
/// elsewhere; a ring with a shard removed has exactly the points of the others.
pub proof fn law_shards_come_and_go_with_their_points(
    points: Points,
    shard: u64,
    count: nat,
    position: u64,
)
    ensures
        ({
            let added = with_shard(points, shard, count);
            let removed = without_shard(points, shard);
            let is_taken = exists|index: nat|
                index < count && #[trigger] position_of(virtual_node(shard, index)) == position;
            &&& is_taken ==> added.contains_key(position) && added[position] == shard
            &&& !is_taken ==> (added.contains_key(position) <==> points.contains_key(position))
                && (points.contains_key(position) ==> added[position] == points[position])
            &&& removed.contains_key(position) <==> points.contains_key(position)
                && points[position] != shard
            &&& removed.contains_key(position) ==> removed[position] == points[position]
        }),
    decreases count,
{
    if count > 0 {
        let last = (count - 1) as nat;
        law_shards_come_and_go_with_their_points(points, shard, last, position);
        let place = position_of(virtual_node(shard, last));
        if place != position {
            if exists|index: nat|
                index < count && #[trigger] position_of(virtual_node(shard, index)) == position {
                let index = choose|index: nat|
                    index < count && #[trigger] position_of(virtual_node(shard, index))
                        == position;
                assert(index < last);
            }
        }
    }
}

/// A virtual node is named after its shard and its number, so that each has a name of its own.
pub proof fn law_virtual_nodes_have_names_of_their_own(a: u64, i: nat, b: u64, j: nat)
    ensures
        virtual_node(a, i) == seq!['s', 'h', 'a', 'r', 'd', '-'] + text::decimal(a as nat) + seq![
            '-',
            'v',
            'n',
            'o',
            'd',
            'e',
            '-',
        ] + text::decimal(i),
        virtual_node(a, i) == virtual_node(b, j) ==> a == b && i == j,
{
    reveal_strlit("shard-");
    reveal_strlit("-vnode-");
    let front = seq!['s', 'h', 'a', 'r', 'd', '-'];
    let middle = seq!['-', 'v', 'n', 'o', 'd', 'e', '-'];
    assert("shard-"@ =~= front);
    assert("-vnode-"@ =~= middle);
    if virtual_node(a, i) == virtual_node(b, j) {
        let x = virtual_node(a, i);
        let y = virtual_node(b, j);
        let shard_x = text::decimal(a as nat);
        let shard_y = text::decimal(b as nat);
        text::lemma_decimal(a as nat);
        text::lemma_decimal(b as nat);
        text::lemma_decimal(i);
        text::lemma_decimal(j);
        assert(x[6 + shard_x.len() as int] == '-');
        assert(y[6 + shard_y.len() as int] == '-');
        assert(shard_x.len() == shard_y.len()) by {
            if shard_x.len() < shard_y.len() {
                assert('0' <= shard_y[shard_x.len() as int]);
                assert(y[6 + shard_x.len() as int] == shard_y[shard_x.len() as int]);
            }
            if shard_y.len() < shard_x.len() {
                assert('0' <= shard_x[shard_y.len() as int]);
                assert(x[6 + shard_y.len() as int] == shard_x[shard_y.len() as int]);
            }
        }
        let end = 6 + shard_x.len() as int;
        assert(shard_x =~= x.subrange(6, end));
        assert(shard_y =~= y.subrange(6, end));
        assert(text::decimal(i) =~= x.skip(end + 7));
        assert(text::decimal(j) =~= y.skip(end + 7));
    }
}

/// The position of a text depends on every byte of it, one after the other: each is mixed into the
/// hash of those before it, and the bits of the result are spread at the end.
pub proof fn law_positions_come_from_all_bytes(bytes: Seq<u8>, byte: u8, text: Seq<char>)
    ensures
        fnv(Seq::empty()) == 0xcbf29ce484222325u64,
        fnv(bytes.push(byte)) == vstd::wrapping::u64_specs::wrapping_mul(
            fnv(bytes) ^ (byte as u64),
            0x100000001b3u64,
        ),
        ({
            let start = fnv(encode_utf8(text));
            let once = start ^ (start >> 33u64);
            let spread = vstd::wrapping::u64_specs::wrapping_mul(once, 0xff51afd7ed558ccdu64);
            let twice = spread ^ (spread >> 33u64);
            let again = vstd::wrapping::u64_specs::wrapping_mul(twice, 0xc4ceb9fe1a85ec53u64);
            position_of(text) == again ^ (again >> 33u64)
        }),
{
    assert(bytes.push(byte).drop_last() =~= bytes);
}

} // verus!
