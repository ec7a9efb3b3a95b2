use sharded_kv::routing::hash_key;
use sharded_kv::{ConfigError, Shard, ShardedDatabase};

fn store(shard_count: usize) -> ShardedDatabase {
    match ShardedDatabase::new(shard_count) {
        Ok(db) => db,
        Err(_) => panic!("a nonzero shard count must be accepted"),
    }
}

#[test]
fn hash_of_empty_key_is_the_offset_basis() {
    assert_eq!(hash_key(""), 0xcbf29ce484222325);
}

#[test]
fn hash_matches_fnv1a_reference_values() {
    assert_eq!(hash_key("a"), 0xaf63dc4c8601ec8c);
    assert_eq!(hash_key("user1"), 0x4228c671628ca359);
    assert_eq!(hash_key("user2"), 0x4228c371628c9e40);
}

#[test]
fn routing_is_deterministic_across_repeated_calls() {
    let db = store(4);
    let key = "user1".to_string();
    let first = db.determine_shard(&key);
    for _ in 0..10 {
        assert_eq!(db.determine_shard(&key), first);
    }
}

#[test]
fn routing_stays_in_range() {
    let db = store(4);
    for i in 0..50 {
        let key = format!("key{}", i);
        assert!(db.determine_shard(&key) < 4);
    }
}

#[test]
fn zero_shard_count_is_rejected() {
    assert!(matches!(
        ShardedDatabase::new(0),
        Err(ConfigError::ZeroShardCount)
    ));
}

#[test]
fn one_shard_is_accepted() {
    let mut db = store(1);
    db.insert("k".to_string(), "v".to_string());
    assert_eq!(db.get(&"k".to_string()), Some(&"v".to_string()));
}

#[test]
fn insert_then_get_round_trips() {
    let mut db = store(4);
    db.insert("k".to_string(), "v".to_string());
    assert_eq!(db.get(&"k".to_string()), Some(&"v".to_string()));
}

#[test]
fn insert_overwrites_and_update_returns_previous() {
    let mut db = store(4);
    db.insert("k".to_string(), "v1".to_string());
    assert_eq!(
        db.update("k".to_string(), "v2".to_string()),
        Some("v1".to_string())
    );
    assert_eq!(db.get(&"k".to_string()), Some(&"v2".to_string()));
}

#[test]
fn delete_removes_and_is_idempotent_on_absent() {
    let mut db = store(4);
    db.insert("k".to_string(), "v".to_string());
    assert_eq!(db.delete(&"k".to_string()), Some("v".to_string()));
    assert_eq!(db.get(&"k".to_string()), None);
    assert_eq!(db.delete(&"k".to_string()), None);
    assert_eq!(db.get(&"k".to_string()), None);
}

#[test]
fn fresh_key_is_absent_and_update_on_fresh_key_inserts() {
    let mut db = store(4);
    assert_eq!(db.get(&"fresh".to_string()), None);
    assert_eq!(db.update("fresh".to_string(), "v".to_string()), None);
    assert_eq!(db.get(&"fresh".to_string()), Some(&"v".to_string()));
}

#[test]
fn keys_on_different_shards_do_not_interfere() {
    let mut db = store(4);
    let k1 = "user1".to_string();
    let k2 = "user2".to_string();
    assert_ne!(db.determine_shard(&k1), db.determine_shard(&k2));
    db.insert(k1.clone(), "Alice".to_string());
    assert_eq!(db.get(&k2), None);
    db.insert(k2.clone(), "Bob".to_string());
    assert_eq!(db.delete(&k1), Some("Alice".to_string()));
    assert_eq!(db.get(&k2), Some(&"Bob".to_string()));
}

#[test]
fn two_users_scenario() {
    let mut db = store(4);
    db.insert("user1".to_string(), "Alice".to_string());
    db.insert("user2".to_string(), "Bob".to_string());
    assert_eq!(db.get(&"user1".to_string()), Some(&"Alice".to_string()));
    assert_eq!(
        db.update("user1".to_string(), "Alicia".to_string()),
        Some("Alice".to_string())
    );
    assert_eq!(db.get(&"user1".to_string()), Some(&"Alicia".to_string()));
    assert_eq!(db.delete(&"user2".to_string()), Some("Bob".to_string()));
    assert_eq!(db.get(&"user2".to_string()), None);
}

#[test]
fn many_keys_round_trip_across_all_shards() {
    let mut db = store(4);
    for i in 0..40 {
        db.insert(format!("key{}", i), format!("value{}", i));
    }
    for i in 0..40 {
        assert_eq!(db.get(&format!("key{}", i)), Some(&format!("value{}", i)));
    }
}

#[test]
fn shard_operations_behave_like_a_map() {
    let mut shard = Shard::new();
    assert_eq!(shard.get(&"k".to_string()), None);
    shard.insert("k".to_string(), "v1".to_string());
    assert_eq!(shard.get(&"k".to_string()), Some(&"v1".to_string()));
    assert_eq!(
        shard.update("k".to_string(), "v2".to_string()),
        Some("v1".to_string())
    );
    assert_eq!(shard.get(&"k".to_string()), Some(&"v2".to_string()));
    assert_eq!(shard.delete(&"k".to_string()), Some("v2".to_string()));
    assert_eq!(shard.get(&"k".to_string()), None);
    assert_eq!(shard.delete(&"k".to_string()), None);
}

#[test]
fn shard_update_on_fresh_key_inserts() {
    let mut shard = Shard::new();
    assert_eq!(shard.update("k".to_string(), "v".to_string()), None);
    assert_eq!(shard.get(&"k".to_string()), Some(&"v".to_string()));
}
