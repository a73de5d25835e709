//! The ring and the router.

use raftkv::sharding::ring::HashRing;
use raftkv::sharding::router::{Router, ShardConfig};

fn shard(shard_id: u64, node_ids: Vec<u64>, port: u16) -> ShardConfig {
    ShardConfig { shard_id, node_ids, leader_port: Some(port) }
}

#[test]
fn test_consistent_hashing_ring() {
    let mut ring = HashRing::new(64);

    // An empty ring has no owner for any key.
    assert!(ring.get_shard("any_key").is_none());

    ring.add_shard(1);
    ring.add_shard(2);
    ring.add_shard(3);

    assert_eq!(ring.shard_count(), 3);

    // Every key maps to some shard.
    for i in 0..100 {
        let key = format!("key_{}", i);
        let shard = ring.get_shard(&key);
        assert!(shard.is_some());
        let shard_id = shard.unwrap();
        assert!(shard_id >= 1 && shard_id <= 3);
    }

    // The same key always maps to the same shard.
    let shard_a = ring.get_shard("test_key").unwrap();
    let shard_b = ring.get_shard("test_key").unwrap();
    assert_eq!(shard_a, shard_b);

    // The keys are spread over all shards.
    let mut counts = [0u32; 4];
    for i in 0..100 {
        let key = format!("key_{}", i);
        let shard = ring.get_shard(&key).unwrap();
        counts[shard as usize] += 1;
    }

    for shard_id in 1..=3 {
        assert!(
            counts[shard_id] > 10,
            "Shard {} got only {} keys — distribution too uneven",
            shard_id,
            counts[shard_id]
        );
    }

    let _key_before = ring.get_shard("stable_key").unwrap();
    ring.remove_shard(2);
    assert_eq!(ring.shard_count(), 2);

    // The key may stay or move, but it has an owner that is there.
    let key_after = ring.get_shard("stable_key").unwrap();
    assert!(key_after == 1 || key_after == 3);
}

#[test]
fn test_router_key_routing() {
    let shards = vec![
        ShardConfig {
            shard_id: 1,
            node_ids: vec![1, 2, 3],
            leader_port: Some(6381),
        },
        ShardConfig {
            shard_id: 2,
            node_ids: vec![4, 5, 6],
            leader_port: Some(6384),
        },
    ];

    let router = Router::new(shards, 64);

    for i in 0..50 {
        let key = format!("user_{}", i);
        let shard = router.get_shard_id(&key).unwrap();
        assert!(shard == 1 || shard == 2);
    }

    let test_key = "important_data";
    let owning_shard = router.get_shard_id(test_key).unwrap();
    assert!(router.key_belongs_to_shard(test_key, owning_shard));
    let other_shard = if owning_shard == 1 { 2 } else { 1 };
    assert!(!router.key_belongs_to_shard(test_key, other_shard));

    let config = router.route(test_key).unwrap();
    assert_eq!(config.shard_id, owning_shard);
    assert!(!config.node_ids.is_empty());
}

/// Where a text stands on a ring, worked out step by step.
fn position(text: &str) -> u64 {
    let mut hash: u64 = 14695981039346656037;
    for byte in text.bytes() {
        hash = (hash ^ u64::from(byte)).wrapping_mul(1099511628211);
    }
    for factor in [18397679294719823053u64, 14181476777654086739] {
        hash ^= hash >> 33;
        hash = hash.wrapping_mul(factor);
    }
    hash ^ (hash >> 33)
}

#[test]
fn a_key_goes_to_the_next_point_clockwise() {
    let mut ring = HashRing::new(8);
    let mut points: Vec<(u64, u64)> = Vec::new();
    for shard_id in [7, 3, 12] {
        ring.add_shard(shard_id);
        for i in 0..8 {
            points.push((position(&format!("shard-{}-vnode-{}", shard_id, i)), shard_id));
        }
    }
    points.sort();
    let mut wrapped = 0;
    for i in 0..400 {
        let key = format!("k{}", i);
        let at = position(&key);
        let expected = match points.iter().find(|point| point.0 >= at) {
            Some(point) => point.1,
            None => {
                wrapped += 1;
                points[0].1
            }
        };
        assert_eq!(ring.get_shard(&key), Some(expected));
    }
    assert!(wrapped > 0);
}

#[test]
fn shards_are_listed_once_in_order() {
    let mut ring = HashRing::new(5);
    assert_eq!(ring.shard_ids(), Vec::<u64>::new());
    assert_eq!(ring.shard_count(), 0);
    for shard_id in [9, 2, 400, 2] {
        ring.add_shard(shard_id);
    }
    assert_eq!(ring.shard_ids(), vec![2, 9, 400]);
    ring.remove_shard(9);
    ring.remove_shard(77);
    assert_eq!(ring.shard_ids(), vec![2, 400]);
}

#[test]
fn a_ring_without_virtual_nodes_stays_empty() {
    let mut ring = HashRing::new(0);
    ring.add_shard(1);
    assert_eq!(ring.get_shard("a"), None);
    assert_eq!(ring.shard_count(), 0);
}

#[test]
fn removal_moves_only_the_keys_of_the_removed_shard() {
    let mut ring = HashRing::new(64);
    for shard_id in 1..=4 {
        ring.add_shard(shard_id);
    }
    let keys: Vec<String> = (0..300).map(|i| format!("key-{}", i)).collect();
    let before: Vec<u64> = keys.iter().map(|key| ring.get_shard(key).unwrap()).collect();
    ring.remove_shard(3);
    for (key, owner) in keys.iter().zip(&before) {
        let after = ring.get_shard(key).unwrap();
        assert_ne!(after, 3);
        if *owner != 3 {
            assert_eq!(after, *owner);
        }
    }
    // Adding it again restores what was.
    ring.add_shard(3);
    for (key, owner) in keys.iter().zip(&before) {
        assert_eq!(ring.get_shard(key), Some(*owner));
    }
}

#[test]
fn addition_moves_keys_only_to_the_added_shard() {
    let mut ring = HashRing::new(64);
    ring.add_shard(1);
    ring.add_shard(2);
    let keys: Vec<String> = (0..300).map(|i| format!("key-{}", i)).collect();
    let before: Vec<u64> = keys.iter().map(|key| ring.get_shard(key).unwrap()).collect();
    ring.add_shard(5);
    let mut moved = 0;
    for (key, owner) in keys.iter().zip(&before) {
        let after = ring.get_shard(key).unwrap();
        if after != *owner {
            assert_eq!(after, 5);
            moved += 1;
        }
    }
    assert!(moved > 0 && moved < 200);
}

#[test]
fn a_router_follows_its_shards() {
    let mut router = Router::new(Vec::new(), 64);
    assert!(router.route("a").is_none());
    assert_eq!(router.get_shard_id("a"), None);
    assert!(!router.key_belongs_to_shard("a", 1));
    assert_eq!(router.shard_count(), 0);

    router.add_shard(shard(1, vec![1], 6381));
    router.add_shard(shard(2, vec![2], 6382));
    assert_eq!(router.shard_count(), 2);
    assert_eq!(router.get_shard(2).unwrap().leader_port, Some(6382));
    assert!(router.get_shard(3).is_none());

    router.remove_shard(1);
    assert_eq!(router.shard_count(), 1);
    assert!(router.get_shard(1).is_none());
    for i in 0..50 {
        assert_eq!(router.route(&format!("u{}", i)).unwrap().shard_id, 2);
    }
}

#[test]
fn removal_keeps_other_routes() {
    let mut router = Router::new(
        vec![shard(1, vec![1], 1), shard(2, vec![2], 2), shard(3, vec![3], 3)],
        64,
    );
    let keys: Vec<String> = (0..100).map(|i| format!("u{}", i)).collect();
    let before: Vec<u64> = keys.iter().map(|key| router.get_shard_id(key).unwrap()).collect();
    router.remove_shard(2);
    for (key, owner) in keys.iter().zip(&before) {
        if *owner != 2 {
            let config = router.route(key).unwrap();
            assert_eq!(config.shard_id, *owner);
            assert_eq!(config.node_ids, vec![*owner]);
        }
    }
}

#[test]
fn the_first_configuration_of_a_shard_counts() {
    let router = Router::new(vec![shard(1, vec![1], 10), shard(1, vec![2], 20)], 4);
    assert_eq!(router.shard_count(), 2);
    assert_eq!(router.get_shard(1).unwrap().leader_port, Some(10));
    assert_eq!(router.route("x").unwrap().node_ids, vec![1]);
}
