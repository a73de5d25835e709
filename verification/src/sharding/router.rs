//! The router: which shard owns a key, and which nodes make up a shard.

use super::ring;
use super::ring::{HashRing, Points};
use vstd::prelude::*;

verus! {

/// A shard: its nodes, and how to reach its leader.
#[derive(Debug)]
pub struct ShardConfig {
    /// The shard's number.
    pub shard_id: u64,
    /// The nodes of the shard's Raft group.
    pub node_ids: Vec<u64>,
    /// The port on which the shard's leader takes clients, as far as it is known.
    pub leader_port: Option<u16>,
}

impl Clone for ShardConfig {
    fn clone(&self) -> (copy: Self)
        ensures
            copy.shard_id == self.shard_id,
            copy.node_ids@ == self.node_ids@,
            copy.leader_port == self.leader_port,
    {
        ShardConfig {
            shard_id: self.shard_id,
            node_ids: self.node_ids.clone(),
            leader_port: self.leader_port,
        }
    }
}

/// Where the first configuration of a shard stands.
pub open spec fn is_first(configs: Seq<ShardConfig>, shard_id: u64, at: int) -> bool {
    &&& 0 <= at < configs.len()
    &&& configs[at].shard_id == shard_id
    &&& forall|earlier: int| 0 <= earlier < at ==> (#[trigger] configs[earlier]).shard_id != shard_id
}

/// The first configuration of a shard, if it has one.
pub open spec fn config_of(configs: Seq<ShardConfig>, shard_id: u64) -> Option<ShardConfig> {
    if exists|at: int| is_first(configs, shard_id, at) {
        Some(configs[choose|at: int| is_first(configs, shard_id, at)])
    } else {
        None
    }
}

/// Whether a shard has a configuration.
pub open spec fn is_configured(configs: Seq<ShardConfig>, shard_id: u64) -> bool {
    exists|at: int| 0 <= at < configs.len() && (#[trigger] configs[at]).shard_id == shard_id
}

/// The configurations of the other shards.
pub open spec fn other_configs(configs: Seq<ShardConfig>, shard_id: u64) -> Seq<ShardConfig> {
    configs.filter(|config: ShardConfig| config.shard_id != shard_id)
}

/// The ring on which every configured shard is.
pub open spec fn ring_of(configs: Seq<ShardConfig>, virtual_nodes: u32) -> Points
    decreases configs.len(),
{
    if configs.len() == 0 {
        Map::empty()
    } else {
        ring::with_shard(
            ring_of(configs.drop_last(), virtual_nodes),
            configs.last().shard_id,
            virtual_nodes as nat,
        )
    }
}

/// What a router knows.
pub struct RouterView {
    /// The points of the ring.
    pub points: Points,
    /// How many virtual nodes each shard gets.
    pub virtual_nodes: u32,
    /// The shards.
    pub configs: Seq<ShardConfig>,
}

impl RouterView {
    /// Every shard on the ring is configured.
    pub open spec fn wf(self) -> bool {
        forall|position: u64| #[trigger]
            self.points.contains_key(position) ==> is_configured(
                self.configs,
                self.points[position],
            )
    }

    /// A new router.
    pub open spec fn fresh(configs: Seq<ShardConfig>, virtual_nodes: u32) -> RouterView {
        RouterView { points: ring_of(configs, virtual_nodes), virtual_nodes, configs }
    }

    /// The shard that owns a key.
    pub open spec fn owner(self, key: Seq<char>) -> Option<u64> {
        ring::owner(self.points, ring::position_of(key))
    }

    /// The router after a shard was added.
    pub open spec fn with_shard(self, config: ShardConfig) -> RouterView {
        RouterView {
            points: ring::with_shard(self.points, config.shard_id, self.virtual_nodes as nat),
            configs: self.configs.push(config),
            ..self
        }
    }

    /// The router after a shard was removed.
    pub open spec fn without_shard(self, shard_id: u64) -> RouterView {
        RouterView {
            points: ring::without_shard(self.points, shard_id),
            configs: other_configs(self.configs, shard_id),
            ..self
        }
    }
}

/// The router: it maps keys to shards, and shards to nodes.
pub struct Router {
    /// The ring.
    ring: HashRing,
    /// The shards.
    shards: Vec<ShardConfig>,
}

impl View for Router {
    type V = RouterView;

    closed spec fn view(&self) -> RouterView {
        RouterView {
            points: self.ring@,
            virtual_nodes: self.ring.virtual_nodes(),
            configs: self.shards@,
        }
    }
}

impl Router {
    /// The ring is in order, and every shard on it is configured.
    pub closed spec fn wf(&self) -> bool {
        self.ring.wf() && self@.wf()
    }

    /// A router for the given shards, all of them on the ring.
    pub fn new(shards: Vec<ShardConfig>, virtual_nodes: u32) -> (router: Self)
        ensures
            router.wf(),
            router@ == RouterView::fresh(shards@, virtual_nodes),
    {
        let mut ring = HashRing::new(virtual_nodes);
        let mut i: usize = 0;
        while i < shards.len()
            invariant
                i <= shards@.len(),
                ring.wf(),
                ring.virtual_nodes() == virtual_nodes,
                ring@ == ring_of(shards@.take(i as int), virtual_nodes),
            decreases shards@.len() - i,
        {
            ring.add_shard(shards[i].shard_id);
            assert(shards@.take(i + 1).drop_last() =~= shards@.take(i as int));
            i += 1;
        }
        assert(shards@.take(i as int) =~= shards@);
        proof {
            lemma_ring_is_configured(shards@, virtual_nodes);
        }
        Router { ring, shards }
    }

    /// The shard that owns a key, with its nodes: `None` if the ring is empty.
    pub fn route(&self, key: &str) -> (config: Option<&ShardConfig>)
        requires
            self.wf(),
        ensures
            match self@.owner(key@) {
                Some(shard_id) => {
                    &&& config matches Some(found)
                    &&& found.shard_id == shard_id
                    &&& config_of(self@.configs, shard_id) == Some(*found)
                },
                None => config is None,
            },
    {
        match self.ring.get_shard(key) {
            Some(shard_id) => {
                proof {
                    let position = ring::position_of(key@);
                    let next = choose|next: u64| ring::is_next(self@.points, position, next);
                    assert(self@.points.contains_key(next));
                    assert(is_configured(self@.configs, shard_id));
                }
                self.get_shard(shard_id)
            },
            None => None,
        }
    }

    /// The number of the shard that owns a key: `None` if the ring is empty.
    pub fn get_shard_id(&self, key: &str) -> (shard: Option<u64>)
        requires
            self.wf(),
        ensures
            shard == self@.owner(key@),
    {
        self.ring.get_shard(key)
    }

    /// Whether a key belongs to a shard.
    pub fn key_belongs_to_shard(&self, key: &str, shard_id: u64) -> (belongs: bool)
        requires
            self.wf(),
        ensures
            belongs == (self@.owner(key@) == Some(shard_id)),
    {
        match self.ring.get_shard(key) {
            Some(id) => id == shard_id,
            None => false,
        }
    }

    /// The configuration of a shard: the first one that was given.
    pub fn get_shard(&self, shard_id: u64) -> (config: Option<&ShardConfig>)
        ensures
            match config_of(self@.configs, shard_id) {
                Some(found) => config == Some(&found) && found.shard_id == shard_id,
                None => config is None,
            },
            config is Some <==> is_configured(self@.configs, shard_id),
    {
        let mut i: usize = 0;
        while i < self.shards.len()
            invariant
                i <= self.shards@.len(),
                forall|j: int| 0 <= j < i ==> (#[trigger] self.shards@[j]).shard_id != shard_id,
            decreases self.shards@.len() - i,
        {
            if self.shards[i].shard_id == shard_id {
                proof {
                    assert(is_first(self@.configs, shard_id, i as int));
                    let other = choose|at: int| is_first(self@.configs, shard_id, at);
                    assert(is_first(self@.configs, shard_id, other));
                    assert(self@.configs[other].shard_id == self@.configs[i as int].shard_id);
                }
                return Some(&self.shards[i]);
            }
            i += 1;
        }
        None
    }

    /// Add a shard. Keys are sent to it from now on; no data moves.
    pub fn add_shard(&mut self, config: ShardConfig)
        requires
            old(self).wf(),
        ensures
            final(self).wf(),
            final(self)@ == old(self)@.with_shard(config),
    {
        self.ring.add_shard(config.shard_id);
        self.shards.push(config);
        proof {
            law_added_shard_keeps_the_router_configured(old(self)@, config);
        }
    }

    /// Remove a shard.
    pub fn remove_shard(&mut self, shard_id: u64)
        requires
            old(self).wf(),
        ensures
            final(self).wf(),
            final(self)@ == old(self)@.without_shard(shard_id),
    {
        self.ring.remove_shard(shard_id);
        let ghost before = self.shards@;
        let ghost other = |config: ShardConfig| config.shard_id != shard_id;
        let mut i: usize = 0;
        let ghost mut seen: int = 0;
        assert(before.skip(0) =~= before);
        proof {
            reveal(Seq::filter);
        }
        while i < self.shards.len()
            invariant
                i <= self.shards@.len(),
                0 <= seen <= before.len(),
                self.shards@.take(i as int) == before.take(seen).filter(other),
                self.shards@.skip(i as int) == before.skip(seen),
                other == |config: ShardConfig| config.shard_id != shard_id,
                self.ring.wf(),
                self.ring@ == ring::without_shard(old(self)@.points, shard_id),
                self.ring.virtual_nodes() == old(self)@.virtual_nodes,
            decreases before.len() - seen,
        {
            proof {
                reveal(Seq::filter);
                assert(self.shards@.skip(i as int)[0] == self.shards@[i as int]);
                assert(before.skip(seen).len() == self.shards@.skip(i as int).len());
                assert(before.skip(seen)[0] == before[seen]);
                assert(before.take(seen + 1).drop_last() =~= before.take(seen));
            }
            let ghost earlier = self.shards@;
            if self.shards[i].shard_id == shard_id {
                let _ = self.shards.remove(i);
                proof {
                    assert(self.shards@.take(i as int) =~= earlier.take(i as int));
                    assert(self.shards@.skip(i as int) =~= earlier.skip(i as int).drop_first());
                }
            } else {
                i += 1;
                proof {
                    assert(earlier.take(i as int) =~= earlier.take(i - 1).push(earlier[i - 1]));
                    assert(earlier.skip(i as int) =~= earlier.skip(i - 1).drop_first());
                }
            }
            proof {
                assert(before.skip(seen + 1) =~= before.skip(seen).drop_first());
                seen = seen + 1;
            }
        }
        proof {
            assert(before.skip(seen).len() == 0);
            assert(before.take(seen) =~= before);
            assert(self.shards@.take(i as int) =~= self.shards@);
            law_removed_shard_keeps_the_router_configured(old(self)@, shard_id);
        }
    }

    /// How many shards are configured.
    pub fn shard_count(&self) -> (count: usize)
        ensures
            count == self@.configs.len(),
    {
        self.shards.len()
    }
}

/// Every shard on the ring of some configurations is one of them.
proof fn lemma_ring_is_configured(configs: Seq<ShardConfig>, virtual_nodes: u32)
    ensures
        RouterView::fresh(configs, virtual_nodes).wf(),
    decreases configs.len(),
{
    if configs.len() > 0 {
        let earlier = configs.drop_last();
        lemma_ring_is_configured(earlier, virtual_nodes);
        let router = RouterView::fresh(earlier, virtual_nodes);
        law_added_shard_keeps_the_router_configured(router, configs.last());
        assert(earlier.push(configs.last()) =~= configs);
    }
}

/// If every shard on the ring was configured, so it is after a shard was added.
pub proof fn law_added_shard_keeps_the_router_configured(router: RouterView, config: ShardConfig)
    requires
        router.wf(),
    ensures
        router.with_shard(config).wf(),
{
    let count = router.virtual_nodes as nat;
    let after = router.with_shard(config);
    ring::law_added_shard_takes_its_points(router.points, config.shard_id, count);
    assert forall|position: u64| #[trigger] after.points.contains_key(position) implies is_configured(
        after.configs,
        after.points[position],
    ) by {
        if exists|index: nat|
            index < count && ring::position_of(
                #[trigger] ring::virtual_node(config.shard_id, index),
            ) == position {
            let index = choose|index: nat|
                index < count && ring::position_of(
                    #[trigger] ring::virtual_node(config.shard_id, index),
                ) == position;
            assert(after.points.contains_pair(
                ring::position_of(ring::virtual_node(config.shard_id, index)),
                config.shard_id,
            ));
            assert(after.configs[after.configs.len() - 1] == config);
        } else {
            assert(router.points.contains_key(position));
            let at = choose|at: int|
                0 <= at < router.configs.len() && (#[trigger] router.configs[at]).shard_id
                    == router.points[position];
            assert(after.configs[at] == router.configs[at]);
        }
    }
}

/// If every shard on the ring was configured, so it is after a shard was removed.
pub proof fn law_removed_shard_keeps_the_router_configured(router: RouterView, shard_id: u64)
    requires
        router.wf(),
    ensures
        router.without_shard(shard_id).wf(),
        !is_configured(router.without_shard(shard_id).configs, shard_id),
{
    let after = router.without_shard(shard_id);
    let other = |config: ShardConfig| config.shard_id != shard_id;
    broadcast use vstd::seq_lib::group_filter_ensures;

    assert forall|position: u64| #[trigger] after.points.contains_key(position) implies is_configured(
        after.configs,
        after.points[position],
    ) by {
        assert(router.points.contains_key(position));
        let at = choose|at: int|
            0 <= at < router.configs.len() && (#[trigger] router.configs[at]).shard_id
                == router.points[position];
        let config = router.configs[at];
        assert(router.configs.contains(config));
        assert(after.configs.contains(config));
        let there = choose|there: int| 0 <= there < after.configs.len() && after.configs[there] == config;
        assert(after.configs[there].shard_id == after.points[position]);
    }
    assert forall|at: int| 0 <= at < after.configs.len() implies (
    #[trigger] after.configs[at]).shard_id != shard_id by {
        assert(other(after.configs[at]));
    }
}

/// What a last configuration changes: nothing for a shard that has one already.
proof fn lemma_last_config(configs: Seq<ShardConfig>, last: ShardConfig, shard_id: u64)
    ensures
        config_of(configs, shard_id) is Some ==> config_of(configs.push(last), shard_id)
            == config_of(configs, shard_id),
        config_of(configs, shard_id) is None && last.shard_id == shard_id ==> config_of(
            configs.push(last),
            shard_id,
        ) == Some(last),
        last.shard_id != shard_id ==> config_of(configs.push(last), shard_id) == config_of(
            configs,
            shard_id,
        ),
    decreases configs.len(),
{
    let longer = configs.push(last);
    if exists|at: int| is_first(configs, shard_id, at) {
        let at = choose|at: int| is_first(configs, shard_id, at);
        assert forall|earlier: int| 0 <= earlier < at implies (
        #[trigger] longer[earlier]).shard_id != shard_id by {
            assert(longer[earlier] == configs[earlier]);
        }
        assert(is_first(longer, shard_id, at));
        lemma_first_is_unique(longer, shard_id, at);
    } else {
        lemma_unconfigured(configs, shard_id);
        assert forall|at: int| 0 <= at < configs.len() implies (#[trigger] longer[at]).shard_id
            != shard_id by {
            assert(longer[at] == configs[at]);
        }
        if last.shard_id == shard_id {
            assert(is_first(longer, shard_id, configs.len() as int));
            lemma_first_is_unique(longer, shard_id, configs.len() as int);
        }
    }
}

/// Only one configuration is the first.
proof fn lemma_first_is_unique(configs: Seq<ShardConfig>, shard_id: u64, at: int)
    requires
        is_first(configs, shard_id, at),
    ensures
        config_of(configs, shard_id) == Some(configs[at]),
{
    let other = choose|other: int| is_first(configs, shard_id, other);
    assert(is_first(configs, shard_id, other));
    assert(configs[other].shard_id == configs[at].shard_id);
}

/// A shard without a first configuration has none.
proof fn lemma_unconfigured(configs: Seq<ShardConfig>, shard_id: u64)
    requires
        config_of(configs, shard_id) is None,
    ensures
        !is_configured(configs, shard_id),
    decreases configs.len(),
{
    if configs.len() > 0 {
        let shorter = configs.drop_last();
        if exists|at: int| is_first(shorter, shard_id, at) {
            let at = choose|at: int| is_first(shorter, shard_id, at);
            assert forall|earlier: int| 0 <= earlier < at implies (
            #[trigger] configs[earlier]).shard_id != shard_id by {
                assert(configs[earlier] == shorter[earlier]);
            }
            assert(is_first(configs, shard_id, at));
        }
        lemma_unconfigured(shorter, shard_id);
        assert forall|at: int| 0 <= at < shorter.len() implies (#[trigger] configs[at]).shard_id
            != shard_id by {
            assert(shorter[at].shard_id != shard_id);
        }
        if configs.last().shard_id == shard_id {
            assert(is_first(configs, shard_id, configs.len() - 1));
        }
    }
}

/// Other shards keep their configurations.
proof fn lemma_other_configs(configs: Seq<ShardConfig>, removed: u64, shard_id: u64)
    requires
        shard_id != removed,
    ensures
        config_of(other_configs(configs, removed), shard_id) == config_of(configs, shard_id),
    decreases configs.len(),
{
    reveal(Seq::filter);
    if configs.len() > 0 {
        let shorter = configs.drop_last();
        lemma_other_configs(shorter, removed, shard_id);
        lemma_last_config(shorter, configs.last(), shard_id);
        lemma_last_config(other_configs(shorter, removed), configs.last(), shard_id);
        assert(shorter.push(configs.last()) =~= configs);
    } else {
        assert(other_configs(configs, removed) =~= configs);
    }
}

/// Removing a shard changes neither the owner of a key of another shard nor where that shard is
/// found.
pub proof fn law_removal_keeps_other_routes(router: RouterView, removed: u64, key: Seq<char>)
    ensures
        router.owner(key) matches Some(shard_id) ==> shard_id != removed ==> {
            let after = router.without_shard(removed);
            &&& after.owner(key) == Some(shard_id)
            &&& config_of(after.configs, shard_id) == config_of(router.configs, shard_id)
        },
{
    ring::law_removal_moves_only_the_removed_shards_keys(
        router.points,
        removed,
        ring::position_of(key),
    );
    if let Some(shard_id) = router.owner(key) {
        if shard_id != removed {
            lemma_other_configs(router.configs, removed, shard_id);
        }
    }
}

/// The owner of a key is the shard that the ring gives for where the key stands.
pub proof fn law_keys_are_routed_by_the_ring(router: RouterView, key: Seq<char>)
    ensures
        router.owner(key) == ring::owner(router.points, ring::position_of(key)),
{
}

/// A router starts with all its shards on the ring, added one after the other, each with the same
/// number of virtual nodes. A shard that is added or removed later is added to or removed from both
/// the ring and the configurations.
pub proof fn law_ring_and_configurations_go_together(
    router: RouterView,
    configs: Seq<ShardConfig>,
    config: ShardConfig,
    virtual_nodes: u32,
)
    ensures
        ring_of(Seq::empty(), virtual_nodes) == Map::<u64, u64>::empty(),
        ring_of(configs.push(config), virtual_nodes) == ring::with_shard(
            ring_of(configs, virtual_nodes),
            config.shard_id,
            virtual_nodes as nat,
        ),
        RouterView::fresh(configs, virtual_nodes) == (RouterView {
            points: ring_of(configs, virtual_nodes),
            virtual_nodes,
            configs,
        }),
        router.with_shard(config) == (RouterView {
            points: ring::with_shard(
                router.points,
                config.shard_id,
                router.virtual_nodes as nat,
            ),
            virtual_nodes: router.virtual_nodes,
            configs: router.configs.push(config),
        }),
        router.without_shard(config.shard_id).points == ring::without_shard(
            router.points,
            config.shard_id,
        ),
        router.without_shard(config.shard_id).virtual_nodes == router.virtual_nodes,
{
    assert(configs.push(config).drop_last() =~= configs);
}

/// A shard is found by its number: the first configuration that has it, and none if no
/// configuration has it.
pub proof fn law_shards_are_found_by_number(configs: Seq<ShardConfig>, shard_id: u64, at: int)
    ensures
        0 <= at < configs.len() && configs[at].shard_id == shard_id && (forall|earlier: int|
            0 <= earlier < at ==> (#[trigger] configs[earlier]).shard_id != shard_id)
            ==> config_of(configs, shard_id) == Some(configs[at]),
        (forall|i: int| 0 <= i < configs.len() ==> (#[trigger] configs[i]).shard_id != shard_id)
            <==> config_of(configs, shard_id) is None,
{
    if 0 <= at < configs.len() && configs[at].shard_id == shard_id && (forall|earlier: int|
        0 <= earlier < at ==> (#[trigger] configs[earlier]).shard_id != shard_id) {
        assert(is_first(configs, shard_id, at));
        lemma_first_is_unique(configs, shard_id, at);
    }
    if config_of(configs, shard_id) is None {
        lemma_unconfigured(configs, shard_id);
    } else {
        let first = choose|first: int| is_first(configs, shard_id, first);
        assert(configs[first].shard_id == shard_id);
    }
}

/// To remove a shard keeps the configurations of all others, in their order, and no other.
pub proof fn law_removal_keeps_the_other_configurations(
    configs: Seq<ShardConfig>,
    config: ShardConfig,
    removed: u64,
)
    ensures
        other_configs(Seq::empty(), removed).len() == 0,
        config.shard_id == removed ==> other_configs(configs.push(config), removed)
            == other_configs(configs, removed),
        config.shard_id != removed ==> other_configs(configs.push(config), removed)
            == other_configs(configs, removed).push(config),
{
    reveal(Seq::filter);
    assert(configs.push(config).drop_last() =~= configs);
}

} // verus!
