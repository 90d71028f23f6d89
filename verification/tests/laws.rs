//! What holds across calls, on chosen values.

use std::collections::BTreeMap;

use dynamo_tokens::PositionalLineageHash;
use kvlake::control::admission::RegisterStatus;
use kvlake::control::authority::Authority;
use kvlake::control::hash_chain::{flat_to_block_hash, lineage_from_prefix};
use kvlake::control::inactive::{FrequencyTracker, InactiveIndex, AGE_AFTER};
use kvlake::control::service::ControlPlane;
use kvlake::proto::{
    BlockKind, BlockMeta, BlockSpec, DefragMode, HashAlgo, KvBlockId, Location, ModelDescriptor,
    OrphanReport, PoolKind, Quota, ReconcileOrphansRequest, RefDelta, RefKind,
    RegisterBlocksRequest, Tier, ViewKind, ViewUpdate,
};
use kvlake::tier::bandwidth::BandwidthPool;
use kvlake::tier::engine::{LocalTierEngine, TierCaps};
use kvlake::tier::pipeline::{PipelineAction, TierPipeline};
use kvlake::tier::workload::{
    drive, drive_admitted, gen_request, granularity, unique_prefix, writeback_ops, Rng,
};

fn target() -> i32 {
    PoolKind::Target.number()
}

fn id(model: &str, revision: &str, hash: &[u8]) -> KvBlockId {
    KvBlockId {
        model_id: model.into(),
        block_hash: hash.to_vec(),
        pool_kind: target(),
        scope: "public".into(),
        revision: revision.into(),
    }
}

fn meta(model: &str, hash: &[u8]) -> BlockMeta {
    BlockMeta {
        id: Some(id(model, "", hash)),
        block_kind: BlockKind::TType.number(),
        locations: vec![Location {
            tier: Tier::L2.number(),
            node_id: "n0".into(),
            segment_id: 1,
            offset: 0,
        }],
        l3_present: false,
        ref_count: 1,
    }
}

fn model(name: &str, soft: i64, hard: i64, borrow: bool, bytes: u64) -> ModelDescriptor {
    ModelDescriptor {
        model_id: name.into(),
        revision: String::new(),
        num_layers: 32,
        block_spec: Some(BlockSpec {
            block_tokens: 128,
            bytes_per_block: bytes,
        }),
        hash_algo: HashAlgo::HashSha256256.number(),
        quota: Some(Quota {
            soft_bytes: soft,
            hard_bytes: hard,
            borrow_enabled: borrow,
        }),
    }
}

fn chain(hashes: &[&[u8]]) -> Vec<Vec<u8>> {
    hashes.iter().map(|h| h.to_vec()).collect()
}

fn put(auth: &mut Authority, name: &str, hashes: &[&[u8]]) -> RegisterStatus {
    auth.register(
        "n0",
        &chain(hashes),
        hashes.iter().map(|h| meta(name, h)).collect(),
    )
    .unwrap()
}

fn delta(name: &str, hash: &[u8], d: i32) -> RefDelta {
    RefDelta {
        id: Some(id(name, "", hash)),
        kind: RefKind::Request.number(),
        delta: d,
        node_id: "n0".into(),
    }
}

fn rest(auth: &mut Authority, name: &str, hash: &[u8]) {
    auth.report_ref(&delta(name, hash, 1)).unwrap();
    auth.report_ref(&delta(name, hash, -1)).unwrap();
}

fn found(auth: &Authority, name: &str, hashes: &[&[u8]]) -> u32 {
    auth.peek_prefix(name, "", target(), &chain(hashes), "n0").1
}

#[test]
fn block_hash_is_xxh3() {
    assert_eq!(flat_to_block_hash(b""), 0x2d06800538d394c2);
    assert_eq!(
        flat_to_block_hash(b"lake"),
        xxhash_rust::xxh3::xxh3_64(b"lake")
    );
}

#[test]
fn lineage_is_that_of_the_tokens_crate() {
    let mut flats: Vec<Vec<u8>> = Vec::new();
    for i in 0..300u32 {
        flats.push(i.to_le_bytes().to_vec());
    }
    let ours = lineage_from_prefix(&flats);
    let mut theirs = PositionalLineageHash::root(flat_to_block_hash(&flats[0]));
    for (i, s) in ours.iter().enumerate() {
        if i > 0 {
            theirs = theirs.extend(flat_to_block_hash(&flats[i]));
        }
        assert_eq!(s.position, theirs.position());
        assert_eq!(s.current, theirs.current_sequence_hash());
        assert_eq!(s.parent_fragment, theirs.parent_hash_fragment());
        if i > 0 {
            assert!(s.is_child_of(&ours[i - 1]));
        }
    }
    assert!(!ours[5].is_child_of(&ours[3]));
    assert_eq!(lineage_from_prefix(&flats[..7]), ours[..7]);
}

#[test]
fn messages_quote_revisions() {
    let mut auth = Authority::default();
    let e = auth.deregister_model("m", "a\"b").unwrap_err();
    assert_eq!(e, "DeregisterModel: unknown namespace (m, rev=\"a\\\"b\")");
    assert_eq!(
        auth.deregister_model("", "").unwrap_err(),
        "DeregisterModel: model_id required"
    );
}

#[test]
fn registration_says_what_is_wrong() {
    let mut auth = Authority::default();
    auth.register_model(model("m", 0, 0, false, 1)).unwrap();
    auth.register_model(model("o", 0, 0, false, 1)).unwrap();
    let refuse = |auth: &mut Authority, metas: Vec<BlockMeta>| {
        auth.register("n0", &chain(&[b"a", b"b"]), metas).unwrap_err()
    };
    let mut nameless = meta("m", b"a");
    nameless.id = None;
    assert_eq!(
        refuse(&mut auth, vec![nameless]),
        "RegisterBlocks: no KVBlockID"
    );
    let e = refuse(&mut auth, vec![meta("m", b"a"), meta("o", b"b")]);
    assert_eq!(e, "RegisterBlocks: mixed model_id m vs o");
    let mut draft = meta("m", b"b");
    draft.id.as_mut().unwrap().pool_kind = PoolKind::Draft.number();
    let e = refuse(&mut auth, vec![meta("m", b"a"), draft]);
    assert_eq!(e, "RegisterBlocks: mixed pool_kind 2 vs 1");
    let e = refuse(&mut auth, vec![meta("m", b"elsewhere")]);
    assert_eq!(e, "RegisterBlocks: block hash not in prefix_hashes (len=9)");
    let mut later = meta("m", b"b");
    later.id.as_mut().unwrap().revision = "r".into();
    let e = refuse(&mut auth, vec![meta("m", b"a"), later]);
    assert_eq!(e, "RegisterBlocks: mixed revision \"\" vs \"r\"");
    assert_eq!(auth.block_count("m", ""), 0);
    assert!(auth.commit_view_events().is_none());
    assert_eq!(
        auth.register("n0", &[], Vec::new()).unwrap(),
        RegisterStatus::Accepted
    );
}

#[test]
fn preflight_tells_what_registration_will_say() {
    let mut auth = Authority::default();
    auth.register_model(model("m", 100, 100, false, 100)).unwrap();
    let ask = |auth: &Authority, h: &[u8]| {
        auth.preflight_register("m", "", target(), &vec![h.to_vec()])
            .unwrap()
    };
    assert_eq!(ask(&auth, b"a"), RegisterStatus::Accepted);
    assert_eq!(put(&mut auth, "m", &[b"a"]), RegisterStatus::Accepted);
    let ahead = ask(&auth, b"b");
    assert!(matches!(ahead, RegisterStatus::RejectedHardQuota(_)));
    assert_eq!(put(&mut auth, "m", &[b"b"]), ahead);
    assert_eq!(ask(&auth, b"a"), RegisterStatus::Accepted);
    assert!(auth
        .preflight_register("x", "", target(), &vec![b"a".to_vec()])
        .unwrap_err()
        .contains("model not registered"));
}

#[test]
fn charges_follow_blocks() {
    let mut auth = Authority::default();
    auth.register_model(model("m", 0, 0, false, 10)).unwrap();
    put(&mut auth, "m", &[b"a", b"b", b"c"]);
    assert_eq!(auth.used_bytes("m", ""), 30);
    assert_eq!(auth.block_count("m", ""), 3);
    let again = put(&mut auth, "m", &[b"a", b"b", b"c"]);
    assert_eq!(again, RegisterStatus::Accepted);
    assert_eq!(auth.used_bytes("m", ""), 30, "known blocks cost nothing");
    assert_eq!(auth.block_count("m", ""), 3);
    rest(&mut auth, "m", b"c");
    assert_eq!(auth.used_bytes("m", ""), 30);
    assert_eq!(auth.evict_n("m", "", target(), 5), 1);
    assert_eq!(auth.used_bytes("m", ""), 20);
    auth.discard_blocks(&[id("m", "", b"b"), id("m", "", b"gone")])
        .unwrap();
    assert_eq!(auth.used_bytes("m", ""), 10);
    auth.reconcile_dead_node("n0").unwrap();
    assert_eq!(auth.used_bytes("m", ""), 10);
    assert_eq!(auth.block_count("m", ""), 1);
}

#[test]
fn hard_limit_holds_while_blocks_make_room() {
    let mut auth = Authority::default();
    auth.register_model(model("m", 100, 200, false, 100)).unwrap();
    for h in [b"a", b"b", b"c", b"d"] {
        assert_eq!(put(&mut auth, "m", &[h]), RegisterStatus::Accepted);
        assert!(auth.used_bytes("m", "") <= 200);
        rest(&mut auth, "m", h);
    }
    assert_eq!(found(&auth, "m", &[b"d"]), 1);
    assert_eq!(found(&auth, "m", &[b"a"]), 0);
}

#[test]
fn collection_keeps_what_is_durable() {
    let mut auth = Authority::default();
    auth.register_model(model("m", 0, 0, false, 7)).unwrap();
    put(&mut auth, "m", &[b"kept"]);
    let mut volatile = meta("m", b"lost");
    volatile.locations[0].tier = Tier::L0.number();
    auth.register("n0", &chain(&[b"lost"]), vec![volatile])
        .unwrap();
    rest(&mut auth, "m", b"kept");
    rest(&mut auth, "m", b"lost");
    let (cooled, gone) = auth.gc_cold("m", "", target(), 9).unwrap();
    assert_eq!(cooled.len(), 1);
    assert_eq!(cooled[0].block_hash, b"kept");
    assert_eq!(gone.len(), 1);
    assert_eq!(gone[0].block_hash, b"lost");
    assert_eq!(auth.used_bytes("m", ""), 7);
    assert_eq!(found(&auth, "m", &[b"kept"]), 1);
    assert!(auth
        .gc_cold("x", "", target(), 1)
        .unwrap_err()
        .contains("unknown namespace"));
}

#[test]
fn references_are_counted_by_kind() {
    let mut auth = Authority::default();
    auth.register_model(model("m", 0, 0, false, 1)).unwrap();
    put(&mut auth, "m", &[b"a"]);
    let mut wb = delta("m", b"a", 2);
    wb.kind = RefKind::Writeback.number();
    auth.report_refs(&[delta("m", b"a", 1), wb.clone()]).unwrap();
    assert_eq!(auth.global_ref("m", "", target(), b"a"), 3);
    assert_eq!(
        auth.global_ref_by_kind("m", "", target(), b"a"),
        (1, 2)
    );
    wb.delta = -3;
    assert!(auth.report_ref(&wb).unwrap_err().contains("underflow"));
    assert_eq!(auth.global_ref("m", "", target(), b"a"), 3);
    let mut nameless = delta("m", b"a", 1);
    nameless.id = None;
    assert_eq!(
        auth.report_refs(&[nameless]).unwrap_err(),
        "ReportRef batch[0]: RefDelta missing id"
    );
}

#[test]
fn index_gives_up_cold_leaves_first() {
    let seqs = lineage_from_prefix(&chain(&[b"p", b"c"]));
    let other = lineage_from_prefix(&chain(&[b"q"]))[0];
    let mut tracker = FrequencyTracker::new();
    for _ in 0..9 {
        tracker.touch(&other);
    }
    assert_eq!(tracker.count(&other), 9);
    let mut index = InactiveIndex::new();
    index.insert(other, 1, &tracker);
    index.insert(seqs[0], 2, &tracker);
    index.insert(seqs[1], 3, &tracker);
    let out: Vec<u64> = index
        .allocate(10, &tracker)
        .iter()
        .map(|n| n.block_id)
        .collect();
    assert_eq!(out, vec![3, 2, 1]);
    assert_eq!(index.len(), 0);
    index.insert(other, 1, &tracker);
    assert!(index.take(&other, &tracker));
    assert!(!index.take(&other, &tracker));
}

/// A copy of the view that is kept by updates alone.
#[derive(Default)]
struct Mirror {
    blocks: BTreeMap<(String, Vec<u8>), usize>,
}

impl Mirror {
    fn apply(&mut self, u: &ViewUpdate) {
        if u.seq == 0 {
            self.blocks.clear();
        }
        for e in &u.events {
            let id = e.id.as_ref().unwrap();
            let key = (id.model_id.clone(), id.block_hash.clone());
            if e.kind == ViewKind::Invalidated.number() {
                self.blocks.remove(&key);
            } else {
                self.blocks.insert(key, e.locations.len());
            }
        }
    }
}

#[test]
fn mirrors_agree_with_snapshots() {
    let mut cp = ControlPlane::new();
    cp.register_model(Some(model("m", 0, 0, false, 1)));
    let mut live = Mirror::default();
    let (first, _) = cp.subscribe_view(0);
    for u in &first {
        live.apply(u);
    }
    let (_, u, _) = cp.register_blocks(RegisterBlocksRequest {
        node_id: "n0".into(),
        prefix_hashes: chain(&[b"a", b"b", b"c"]),
        blocks: vec![meta("m", b"a"), meta("m", b"b"), meta("m", b"c")],
    });
    live.apply(&u.unwrap());
    let after_first = cp.authority.view_last_seq();
    let mut late = Mirror::default();
    for u in &cp.subscribe_view(0).0 {
        late.apply(u);
    }
    let (ack, u) = cp.discard_blocks(&[id("m", "", b"b")]);
    assert!(ack.ok);
    live.apply(&u.unwrap());
    cp.authority
        .publish_location("m", "", target(), b"a", Tier::L0, "n1", true)
        .unwrap();
    live.apply(&cp.authority.commit_view_events().unwrap());
    for u in &cp.subscribe_view(after_first).0 {
        late.apply(u);
    }
    let mut fresh = Mirror::default();
    for u in &cp.resync().0 {
        fresh.apply(u);
    }
    assert_eq!(live.blocks, fresh.blocks);
    assert_eq!(late.blocks, fresh.blocks);
    assert_eq!(fresh.blocks.len(), 2);
    assert_eq!(fresh.blocks[&("m".to_string(), b"a".to_vec())], 2);
    let (ack, u) = cp.deregister_model("m", "");
    assert!(ack.ok);
    live.apply(&u.unwrap());
    assert!(live.blocks.is_empty());
}

#[test]
fn checkpoints_bring_everything_back_here() {
    let mut cp = ControlPlane::new();
    assert_eq!(
        cp.restore_checkpoint(None).0.err,
        "RestoreCheckpoint: store empty"
    );
    cp.register_model(Some(model("m", 0, 0, false, 5)));
    cp.register_blocks(RegisterBlocksRequest {
        node_id: "n0".into(),
        prefix_hashes: chain(&[b"a", b"b"]),
        blocks: vec![meta("m", b"a"), meta("m", b"b")],
    });
    let snap = cp.save_checkpoint().unwrap();
    assert_eq!(snap.seq, 1);
    cp.deregister_model("m", "");
    assert_eq!(found(&cp.authority, "m", &[b"a", b"b"]), 0);
    let (ack, ups) = cp.restore_checkpoint(None);
    assert!(ack.ok, "{}", ack.err);
    assert_eq!(ups[0].seq, 0);
    assert_eq!(ups[0].events.len(), 2);
    assert_eq!(found(&cp.authority, "m", &[b"a", b"b"]), 2);
    assert_eq!(cp.authority.used_bytes("m", ""), 10);
    assert_eq!(cp.save_checkpoint().unwrap().blocks, snap.blocks);
}

#[test]
fn reconciling_does_all_in_order() {
    let mut cp = ControlPlane::new();
    cp.register_model(Some(model("m", 0, 0, false, 5)));
    put(&mut cp.authority, "m", &[b"a"]);
    cp.authority.report_ref(&delta("m", b"a", 1)).unwrap();
    cp.authority.set_now_ms(100_000);
    let (r, _) = cp.reconcile_orphans(&ReconcileOrphansRequest {
        reports: vec![OrphanReport {
            node_id: "n1".into(),
            ids: vec![id("m", "", b"half"), id("m", "", b"a")],
            marked_at_ms: 1,
        }],
        orphan_ttl_ms: 0,
        dead_node_id: "n0".into(),
        gc_model_id: "m".into(),
        gc_revision: String::new(),
        gc_pool_kind: target(),
        gc_cold_limit: 4,
    });
    assert!(r.ok, "{}", r.err);
    assert_eq!(r.discarded.len(), 1);
    assert_eq!(r.discarded[0].block_hash, b"half");
    assert_eq!(r.refs_cleared, 1);
    assert_eq!(r.cold_stripped.len(), 1);
    assert_eq!(
        cp.authority.reconcile_dead_node("").unwrap_err(),
        "reconcile_dead_node: node_id required"
    );
}

#[test]
fn acks_carry_the_pressure() {
    let mut cp = ControlPlane::new();
    assert_eq!(
        cp.register_model(None).err,
        "RegisterModel: model required"
    );
    assert_eq!(
        cp.set_model_quota("m", "", None).err,
        "SetModelQuota: quota required"
    );
    cp.register_model(Some(model("m", 10, 10, false, 25)));
    let req = RegisterBlocksRequest {
        node_id: "n0".into(),
        prefix_hashes: chain(&[b"a"]),
        blocks: vec![meta("m", b"a")],
    };
    let ahead = cp.admit_register_blocks(&req);
    assert_eq!(
        ahead.err,
        "AdmitRegisterBlocks: admission rejected reason=HARD_QUOTA deficit=15"
    );
    let (ack, u, plan) = cp.register_blocks(req);
    assert!(!ack.ok && u.is_none() && plan.is_none());
    assert_eq!(ack.backpressure.unwrap().deficit_bytes, 15);
    let q = cp.get_model_quota("m", "");
    assert_eq!(q.used_bytes, 0);
    assert!(!cp.get_model_quota("x", "").ok);
    assert_eq!(
        cp.request_barrier("", "n0").err,
        "RequestBarrier: request_id required"
    );
}

#[test]
fn plans_move_chains_side_by_side() {
    let mut auth = Authority::default();
    auth.register_model(model("m", 0, 0, false, 1)).unwrap();
    let at = |h: &[u8], segment: u64, offset: u64| {
        let mut m = meta("m", h);
        m.locations[0].segment_id = segment;
        m.locations[0].offset = offset;
        m
    };
    auth.register("n0", &chain(&[b"x"]), vec![at(b"x", 1, 8)])
        .unwrap();
    auth.register(
        "n0",
        &chain(&[b"p", b"q"]),
        vec![at(b"p", 1, 0), at(b"q", 2, 0)],
    )
    .unwrap();
    let moves = auth
        .plan_defrag("m", "", target(), DefragMode::Colocate, 8)
        .unwrap();
    let places: Vec<(u64, u64)> = moves.iter().map(|m| (m.to_segment, m.to_offset)).collect();
    assert_eq!(places, vec![(1, 16), (1, 24)]);
    auth.report_ref(&delta("m", b"q", 1)).unwrap();
    assert!(auth
        .plan_defrag("m", "", target(), DefragMode::Colocate, 8)
        .unwrap()
        .is_empty());
    assert!(auth
        .plan_defrag("m", "r", target(), DefragMode::Both, 8)
        .is_err());
}

#[test]
fn drained_nodes_own_nothing() {
    let mut auth = Authority::default();
    auth.join_shard_node("n0", 4).unwrap();
    auth.join_shard_node("n1", 4).unwrap();
    auth.drain_shard_node("n1").unwrap();
    for i in 0..50u32 {
        assert_eq!(auth.shard_owner(&i.to_le_bytes()).unwrap(), "n0");
    }
    auth.remove_shard_node("n1").unwrap();
    assert!(auth.join_shard_node("n0", 4).is_err());
    assert!(auth.drain_shard_node("n9").is_err());
    assert!(auth.remove_shard_node("n9").is_err());
}

#[test]
fn workload_is_repeatable() {
    let mut rng = Rng { state: 88172645463325252 };
    assert_eq!(rng.next(), 8748534153485358512);
    assert_eq!(rng.next(), 3040900993826735515);
    let mut same = Rng { state: 1 };
    let p = unique_prefix(&mut same);
    assert!((256..256 + 4096).contains(&p));
    let blocks = gen_request(3);
    assert_eq!(blocks.len(), 16);
    assert_eq!(blocks[1], (3 << 32) | 1);

    let caps = || TierCaps {
        l0: 16,
        l1: 32,
        l2: 64,
    };
    let (stats, tally) = drive(caps(), &[1, 1, 2]);
    assert_eq!(stats.miss, 32);
    assert_eq!(tally.write_bytes, 32 * 4096);
    assert_eq!(tally.promotes, 16);
    assert_eq!(stats.l2, 16);
    let (again, _) = drive(caps(), &[1, 1, 2]);
    assert_eq!(again.miss, stats.miss);
    let (picky, kept) = drive_admitted(caps(), &[1, 1, 2], 2);
    assert_eq!(picky.miss, 32);
    assert_eq!(kept.write_bytes, 32 * 4096);
}

#[test]
fn whole_blocks_are_reused() {
    assert_eq!(granularity(88172645463325252, 128, 5), (4992, 5321));
    assert_eq!(granularity(88172645463325252, 1, 5), (5321, 5321));
    assert_eq!(granularity(7, 128, 0), (0, 0));
    assert_eq!(writeback_ops(16, 4, 10), 40);
    assert_eq!(writeback_ops(17, 4, 10), 50);
    assert_eq!(writeback_ops(0, 4, 10), 0);
}

#[test]
fn durable_copies_are_in_one_tier() {
    let mut e = LocalTierEngine::with_caps(TierCaps {
        l0: 1,
        l1: 1,
        l2: 2,
    });
    for h in [b"a", b"b", b"c"] {
        e.put_durable(h, h).unwrap();
    }
    for h in [b"a", b"b", b"c"] {
        assert!(e.is_l2_durable(h) != e.l3_present(h));
    }
    assert!(e.l3_present(b"a"));
    assert_eq!(e.demote_l2_to_l3(b"b").unwrap(), 1);
    assert!(!e.is_l2_durable(b"b") && e.l3_present(b"b"));

    e.pin(b"c");
    e.promote_to_l0(b"a").unwrap();
    assert!(e.is_l2_durable(b"a") && e.l3_present(b"a"));
    e.promote_to_l0(b"b").unwrap();
    for h in [b"a", b"b", b"c"] {
        assert_eq!(e.get(h).unwrap(), h);
        assert!(e.is_l2_durable(h) || e.l3_present(h));
    }
    assert!(e.is_l2_durable(b"c"));
}

#[test]
fn background_work_is_paused() {
    let mut cp = ControlPlane::new();
    assert!(cp.pause_background(true).ok);
    assert!(cp.paused);
    let ack = cp.pause_background(false);
    assert!(ack.ok && ack.err.is_empty());
    assert!(!cp.paused);
}

#[test]
fn dead_nodes_let_go_of_what_is_left() {
    let mut auth = Authority::default();
    auth.register_model(model("m", 0, 0, false, 1)).unwrap();
    put(&mut auth, "m", &[b"a"]);
    auth.report_ref(&delta("m", b"a", 2)).unwrap();
    let mut unnamed = delta("m", b"a", -1);
    unnamed.node_id = String::new();
    auth.report_ref(&unnamed).unwrap();
    let mut wb = delta("m", b"a", 1);
    wb.kind = RefKind::Writeback.number();
    wb.node_id = "n1".into();
    auth.report_ref(&wb).unwrap();

    assert_eq!(auth.reconcile_dead_node("n0").unwrap().0, 1);
    assert_eq!(auth.global_ref_by_kind("m", "", target(), b"a"), (0, 1));
    assert_eq!(auth.inactive_len("m", "", target()), 0);
    assert_eq!(auth.reconcile_dead_node("n1").unwrap().0, 1);
    assert_eq!(auth.global_ref("m", "", target(), b"a"), 0);
    assert_eq!(auth.inactive_len("m", "", target()), 1);
    assert_eq!(auth.evict_n("m", "", target(), 1), 1);
}

#[test]
fn counts_age() {
    let hot = lineage_from_prefix(&chain(&[b"hot"]))[0];
    let other = lineage_from_prefix(&chain(&[b"other"]))[0];
    let mut tracker = FrequencyTracker::new();
    for _ in 0..20 {
        tracker.touch(&hot);
    }
    assert_eq!(tracker.count(&hot), 15);
    for _ in 20..AGE_AFTER - 1 {
        tracker.touch(&other);
    }
    assert_eq!((tracker.count(&hot), tracker.count(&other)), (15, 15));
    tracker.touch(&other);
    assert_eq!((tracker.count(&hot), tracker.count(&other)), (7, 7));
    for left in [3, 1, 0] {
        for _ in 0..AGE_AFTER / 2 {
            tracker.touch(&other);
        }
        assert_eq!(tracker.count(&hot), left);
    }
}

#[test]
fn places_follow_blocks() {
    let mut e = LocalTierEngine::with_caps(TierCaps {
        l0: 1,
        l1: 1,
        l2: 2,
    });
    let all: [&[u8]; 4] = [b"a", b"b", b"c", b"d"];
    for h in all {
        e.put_durable(h, h).unwrap();
    }
    e.promote_to_l0(b"a").unwrap();
    e.demote_l2_to_l3(b"a").unwrap();
    e.put_durable(b"b", b"b").unwrap();
    e.discard_settled(b"d");
    assert!(e.l2_len() <= 2);
    for h in all {
        assert_eq!(e.l2_placement(h).is_some(), e.is_l2_durable(h));
    }
}

#[test]
fn bytes_stay_unless_object_storage_has_others() {
    let mut e = LocalTierEngine::with_caps(TierCaps {
        l0: 4,
        l1: 4,
        l2: 1,
    });
    e.put_durable(b"a", b"1").unwrap();
    e.put_durable(b"b", b"b").unwrap();
    assert_eq!(e.get(b"a").unwrap(), b"1");
    e.put_durable(b"a", b"2").unwrap();
    assert_eq!(e.get(b"a").unwrap(), b"2");
    assert_eq!(e.get(b"b").unwrap(), b"b");
    e.put_durable(b"b", b"b").unwrap();
    assert_eq!(e.get(b"a").unwrap(), b"1");
    e.promote_to_l0(b"b").unwrap();
    assert_eq!(e.get(b"b").unwrap(), b"b");
}

#[test]
fn refused_restores_keep_updates() {
    let mut cp = ControlPlane::new();
    cp.register_model(Some(model("m", 0, 0, false, 100)));
    for n in 1..3 {
        let hashes: [&[u8]; 2] = [b"a", b"b"];
        cp.register_blocks(RegisterBlocksRequest {
            node_id: "n0".into(),
            prefix_hashes: chain(&hashes[..n]),
            blocks: vec![meta("m", hashes[n - 1])],
        });
    }
    assert_eq!(cp.authority.view_last_seq(), 2);
    let good = cp.authority.export_snapshot(3);
    let mut bad = good.clone();
    bad.models[0].quota = Some(Quota {
        soft_bytes: 150,
        hard_bytes: 150,
        borrow_enabled: false,
    });

    let (ack, ups) = cp.restore_checkpoint(Some(bad));
    assert!(!ack.ok && ups.is_empty());
    let kept = cp.authority.replay_view_after(1).unwrap();
    assert_eq!(kept.len(), 1);
    assert_eq!(kept[0].seq, 2);
    let told = cp.authority.commit_view_events().unwrap();
    assert_eq!((told.seq, told.events.len()), (3, 1));

    let (ack, ups) = cp.restore_checkpoint(Some(good));
    assert!(ack.ok && ups.len() == 2);
    assert!(cp.authority.replay_view_after(1).is_none());
    assert!(cp.authority.commit_view_events().is_none());
    assert_eq!(cp.authority.block_count("m", ""), 2);
}

#[test]
fn ticks_end_with_the_queue() {
    let mut e = LocalTierEngine::with_caps(TierCaps {
        l0: 4,
        l1: 4,
        l2: 4,
    });
    e.put_durable(b"a", b"a").unwrap();
    let mut p = TierPipeline::new(e, BandwidthPool::new(1 << 20));
    for h in [b"a", b"x", b"y"] {
        p.enqueue(PipelineAction::Promote { hash: h.to_vec() });
    }
    assert_eq!(p.tick(usize::MAX).0, 1);
    assert_eq!(p.pending(), 2);
    assert_eq!(p.tick(usize::MAX), (0, Vec::new()));
}

#[test]
fn finishing_is_promoting_with_admission() {
    for begun in [true, false] {
        let mut fleet: Vec<LocalTierEngine> = Vec::new();
        for _ in 0..2 {
            let mut e = LocalTierEngine::with_caps(TierCaps {
                l0: 1,
                l1: 2,
                l2: 2,
            });
            for h in [b"a", b"b", b"c"] {
                e.put_durable(h, h).unwrap();
            }
            if begun {
                e.begin_promote(b"a");
            }
            e.begin_promote(b"c");
            fleet.push(e);
        }
        let done = fleet[0].finish_promote(b"a");
        assert_eq!(done, fleet[1].promote_to_l0_admitted(b"a"));
        for h in [b"a", b"b", b"c"] {
            assert_eq!(fleet[0].local_tier(h), fleet[1].local_tier(h));
            assert_eq!(fleet[0].is_one_shot(h), fleet[1].is_one_shot(h));
        }
        assert_eq!(fleet[0].promote_inflight_len(), 1);
        assert_eq!(fleet[1].promote_inflight_len(), if begun { 2 } else { 1 });
        assert!(fleet[0].finish_promote(b"gone").is_err());
        assert!(fleet[0].finish_promote(b"c").is_ok());
        assert_eq!(fleet[0].promote_inflight_len(), 0);
    }
}
