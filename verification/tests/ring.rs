//! Behaviour of quotas, the view log, placement and the shard ring.

use kvlake::control::placement::{
    chain_anchor, fnv1a64_update, hrw_score, pick_home, ANCHOR_DEPTH_CAP, FNV_OFFSET,
};
use kvlake::control::quota::{borrowed_bytes, classify_write, validate_quota, AdmitWrite};
use kvlake::control::shard::{moved_keys, ShardRing};
use kvlake::control::view::{invalidated_event, ViewLog};
use kvlake::proto::{KvBlockId, Quota, ViewEvent};

fn ev(flat: u8) -> ViewEvent {
    invalidated_event(KvBlockId {
        model_id: "m".into(),
        revision: String::new(),
        pool_kind: 0,
        block_hash: vec![flat],
        scope: "public".into(),
    })
}

#[test]
fn view_log_seq_monotonic_and_bounded() {
    let mut log = ViewLog::with_cap(2);
    let u1 = log.commit(vec![ev(1)]);
    let u2 = log.commit(vec![ev(2)]);
    let u3 = log.commit(vec![ev(3)]);
    assert_eq!((u1.seq, u2.seq, u3.seq), (1, 2, 3));
    assert_eq!(log.last_seq(), 3);
    assert_eq!(log.floor(), 2);
}

#[test]
fn view_log_replay_window() {
    let mut log = ViewLog::with_cap(2);
    for i in 1..=4 {
        log.commit(vec![ev(i as u8)]);
    }
    let replayed = log.replay_after(2).expect("in window");
    assert_eq!(
        replayed.iter().map(|u| u.seq).collect::<Vec<_>>(),
        vec![3, 4]
    );
    assert!(log.replay_after(1).is_none());
    assert!(log.replay_after(0).is_none());
    assert_eq!(log.replay_after(4).expect("current").len(), 0);
}

#[test]
fn view_log_replay_resume_ahead_of_issued_seq() {
    let log = ViewLog::default();
    assert!(log.replay_after(100).is_none());
    assert!(log.replay_after(1).is_none());

    let mut log = ViewLog::default();
    for i in 1..=3u8 {
        log.commit(vec![ev(i)]);
    }
    assert_eq!(log.replay_after(1).expect("in window").len(), 2);
    assert_eq!(log.replay_after(3).expect("current").len(), 0);
    assert!(log.replay_after(4).is_none());
    assert!(log.replay_after(100).is_none());
}

#[test]
fn view_log_replay_max_seq_no_overflow() {
    let mut log = ViewLog::default();
    log.commit(vec![ev(1)]);
    assert!(log.replay_after(u64::MAX).is_none());
    assert!(log.replay_after(u64::MAX - 1).is_none());
}

#[test]
fn emptied_log_goes_on_numbering() {
    let mut log = ViewLog::with_cap(0);
    log.commit(vec![ev(1)]);
    log.commit(vec![ev(2)]);
    assert_eq!(log.floor(), 2, "the window holds at least one batch");
    log.reset();
    assert_eq!(log.floor(), 3);
    assert!(log.replay_after(1).is_none());
    assert_eq!(log.commit(vec![ev(3)]).seq, 3);
}

#[test]
fn unlimited_when_zero() {
    let q = Quota {
        soft_bytes: 0,
        hard_bytes: 0,
        borrow_enabled: false,
    };
    assert_eq!(classify_write(1_000_000, 1, &q), AdmitWrite::WithinSoft);
}

#[test]
fn hard_rejects() {
    let q = Quota {
        soft_bytes: 100,
        hard_bytes: 200,
        borrow_enabled: true,
    };
    match classify_write(180, 50, &q) {
        AdmitWrite::HardQuota { deficit_bytes, .. } => assert_eq!(deficit_bytes, 30),
        other => panic!("expected HardQuota, got {other:?}"),
    }
}

#[test]
fn soft_over_under_hard() {
    let q = Quota {
        soft_bytes: 100,
        hard_bytes: 200,
        borrow_enabled: true,
    };
    assert_eq!(classify_write(90, 20, &q), AdmitWrite::OverSoft);
    assert_eq!(borrowed_bytes(120, 100), 20);
}

#[test]
fn validate_rejects_negative_and_soft_gt_hard() {
    assert!(validate_quota(&Quota {
        soft_bytes: -1,
        hard_bytes: 0,
        borrow_enabled: false,
    })
    .is_err());
    assert!(validate_quota(&Quota {
        soft_bytes: 200,
        hard_bytes: 100,
        borrow_enabled: false,
    })
    .is_err());
    assert!(validate_quota(&Quota {
        soft_bytes: 0,
        hard_bytes: 0,
        borrow_enabled: true,
    })
    .is_ok());
}

#[test]
fn fnv1a64_matches_go_reference_vectors() {
    assert_eq!(fnv1a64_update(FNV_OFFSET, b""), 14695981039346656037);
    assert_eq!(fnv1a64_update(FNV_OFFSET, b"a"), 0xaf63dc4c8601ec8c);
    assert_eq!(fnv1a64_update(FNV_OFFSET, b"lake"), 0x0471d1ad906f0dde);
}

#[test]
fn hrw_score_matches_go_mirror_vectors() {
    assert_eq!(hrw_score(b"anchor-0", "n0"), 0xc8e4e7b063e4ef7f);
    assert_eq!(hrw_score(b"key!", "worker-1"), 0xd485e7e9b3d80a5f);
}

#[test]
fn hrw_score_deterministic_and_node_sensitive() {
    let key = b"anchor-0";
    let a = hrw_score(key, "n0");
    assert_eq!(a, hrw_score(key, "n0"));
    assert_ne!(a, hrw_score(key, "n1"));
    assert_ne!(hrw_score(b"ab", "c"), hrw_score(b"a", "bc"));
}

#[test]
fn chain_anchor_bounded_depth() {
    assert_eq!(chain_anchor(&[]), None);
    let one = vec![b"h0".to_vec()];
    assert_eq!(chain_anchor(&one), Some(&b"h0".to_vec()));
    let ten: Vec<Vec<u8>> = (0..10u8).map(|i| vec![i]).collect();
    assert_eq!(
        chain_anchor(&ten),
        Some(&vec![(ANCHOR_DEPTH_CAP - 1) as u8])
    );
}

fn home(nodes: &Vec<String>, key: &[u8]) -> String {
    let scores: Vec<u64> = nodes.iter().map(|n| hrw_score(key, n)).collect();
    pick_home(nodes, &scores).unwrap()
}

#[test]
fn hrw_minimal_migration_on_join() {
    let keys: Vec<Vec<u8>> = (0..200u32).map(|i| format!("k{i}").into_bytes()).collect();
    let s = |ids: &[&str]| ids.iter().map(|s| s.to_string()).collect::<Vec<_>>();
    let (two, three) = (s(&["n0", "n1"]), s(&["n0", "n1", "n2"]));
    let mut moved = 0usize;
    for k in &keys {
        let before = home(&two, k);
        let after = home(&three, k);
        if before != after {
            moved += 1;
            assert_eq!(after, "n2");
        }
    }
    let ratio = moved as f64 / keys.len() as f64;
    assert!(ratio > 0.0 && ratio < 0.55, "ratio={ratio}");
}

#[test]
fn pick_home_tie_prefers_smaller_node_id() {
    let nodes = vec!["n1".to_string(), "n0".to_string()];
    assert_eq!(pick_home(&nodes, &vec![42, 42]), Some("n0".to_string()));
    assert_eq!(pick_home(&nodes, &vec![1, 0]), Some("n1".to_string()));
    assert_eq!(pick_home(&Vec::new(), &Vec::new()), None);
}

#[test]
fn ring_membership_and_wrap() {
    let mut r = ShardRing::new(8);
    r.join("n0", 8).unwrap();
    r.join("n1", 8).unwrap();
    let map = r.to_proto();
    let mut ids: Vec<_> = map.nodes.iter().map(|n| n.node_id.clone()).collect();
    ids.sort();
    assert_eq!(ids, vec!["n0", "n1"]);
    for i in 0..100u64 {
        let k = i.to_le_bytes().to_vec();
        assert!(r.owner_of(&k).is_some());
    }
    assert!(map.generation >= 2);
}

fn migration_ratio(before: &ShardRing, after: &ShardRing, keys: &Vec<Vec<u8>>) -> f64 {
    moved_keys(before, after, keys) as f64 / keys.len() as f64
}

#[test]
fn expand_moves_only_new_interval() {
    let mut before = ShardRing::new(32);
    before.join("n0", 32).unwrap();
    before.join("n1", 32).unwrap();
    let keys: Vec<Vec<u8>> = (0..200u64).map(|i| format!("k{i}").into_bytes()).collect();
    let mut after = before.copy();
    after.join("n2", 32).unwrap();
    let ratio = migration_ratio(&before, &after, &keys);
    assert!(
        ratio < 0.55,
        "expand should be minimal migration, ratio={ratio}"
    );
    for k in &keys {
        let b = before.owner_of(k);
        let a = after.owner_of(k);
        if b != a {
            assert_eq!(a.as_deref(), Some("n2"));
        }
    }
}

#[test]
fn p65_join_drain_roundtrip_restores_ownership() {
    let mut ring = ShardRing::new(32);
    ring.join("n0", 32).unwrap();
    ring.join("n1", 32).unwrap();
    let keys: Vec<Vec<u8>> = (0..200u64).map(|i| format!("k{i}").into_bytes()).collect();
    let before = ring.copy();

    ring.join("n2", 32).unwrap();
    let expand_ratio = migration_ratio(&before, &ring, &keys);
    assert!(
        expand_ratio > 0.0 && expand_ratio < 0.55,
        "expand should move a bounded fraction, ratio={expand_ratio}"
    );

    ring.mark_drain("n2").unwrap();
    ring.remove("n2").unwrap();
    let restored = migration_ratio(&before, &ring, &keys);
    assert_eq!(
        restored, 0.0,
        "drain+remove round-trip should restore pre-join ownership exactly"
    );
}

#[test]
fn ring_refuses_unknown_and_repeated_members() {
    let mut r = ShardRing::new(0);
    assert_eq!(r.owner_of(b"k"), None);
    assert_eq!(r.join("", 1).unwrap_err(), "join: node_id required");
    r.join("n0", 0).unwrap();
    assert_eq!(r.join("n0", 4).unwrap_err(), "join: node n0 already present");
    assert_eq!(r.mark_drain("n1").unwrap_err(), "drain: unknown node n1");
    assert_eq!(
        r.remove("n0").unwrap_err(),
        "remove: node n0 must DrainShardNode first"
    );
    assert_eq!(r.remove("n1").unwrap_err(), "remove: unknown node n1");
    r.mark_drain("n0").unwrap();
    assert_eq!(
        r.mark_drain("n0").unwrap_err(),
        "drain: node n0 already draining"
    );
    assert_eq!(r.owner_of(b"k"), None);
    assert!(r.ready_nodes().is_empty());
    assert!(r.has_node("n0"));
}
