//! Behaviour of the control plane.

use kvlake::control::admission::RegisterStatus;
use kvlake::control::authority::Authority;
use kvlake::control::checkpoint::{CheckpointStore, MemoryCheckpointStore};
use kvlake::control::hash_chain::{flat_to_block_hash, lineage_from_prefix};
use kvlake::control::inactive::{FrequencyTracker, InactiveIndex};
use kvlake::control::namespace::NamespaceKey;
use kvlake::control::service::{is_news, ControlPlane};
use kvlake::control::view::ViewLog;
use kvlake::proto::{
    BlockKind, BlockMeta, BlockSpec, CheckpointSnapshot, DefragMode, HashAlgo, KvBlockId, Location,
    ModelDescriptor, OrphanReport, PoolKind, Quota, RefDelta, RefKind, RegisterBlocksRequest, Tier,
    ViewKind,
};

fn ensure_model(auth: &mut Authority, model: &str) {
    ensure_model_rev(auth, model, "");
}

fn ensure_model_rev(auth: &mut Authority, model: &str, revision: &str) {
    auth.register_model(ModelDescriptor {
        model_id: model.into(),
        revision: revision.into(),
        num_layers: 32,
        block_spec: Some(BlockSpec {
            block_tokens: 128,
            bytes_per_block: 0,
        }),
        hash_algo: HashAlgo::HashSha256256.number(),
        quota: Some(Quota {
            soft_bytes: 0,
            hard_bytes: 0,
            borrow_enabled: false,
        }),
    })
    .unwrap();
}

fn meta(model: &str, hash: &[u8]) -> BlockMeta {
    meta_rev(model, "", hash)
}

fn meta_rev(model: &str, revision: &str, hash: &[u8]) -> BlockMeta {
    BlockMeta {
        id: Some(KvBlockId {
            model_id: model.into(),
            block_hash: hash.to_vec(),
            pool_kind: PoolKind::Target.number(),
            scope: "public".into(),
            revision: revision.into(),
        }),
        block_kind: BlockKind::TType.number(),
        locations: vec![Location {
            tier: Tier::L2.number(),
            node_id: "n0".into(),
            segment_id: 1,
            offset: 0,
        }],
        l3_present: false,
        ref_count: 1,
    }
}

fn prefix(hashes: &[&[u8]]) -> Vec<Vec<u8>> {
    hashes.iter().map(|h| h.to_vec()).collect()
}

fn delta(model: &str, flat: &[u8], d: i32) -> RefDelta {
    delta_rev(model, "", flat, d)
}

fn delta_rev(model: &str, revision: &str, flat: &[u8], d: i32) -> RefDelta {
    RefDelta {
        id: Some(KvBlockId {
            model_id: model.into(),
            block_hash: flat.to_vec(),
            pool_kind: PoolKind::Target.number(),
            scope: "public".into(),
            revision: revision.into(),
        }),
        kind: RefKind::Request.number(),
        delta: d,
        node_id: "n0".into(),
    }
}

#[test]
fn lookup_prefix_contiguous_then_gap() {
    let mut auth = Authority::default();
    ensure_model(&mut auth, "m");
    let full = prefix(&[b"h0", b"h1", b"h2"]);
    auth.register(
        "n0",
        &full,
        vec![meta("m", b"h0"), meta("m", b"h1"), meta("m", b"h2")],
    )
    .unwrap();
    let (blocks, hit, local) = auth.lookup_prefix(
        "m",
        "",
        PoolKind::Target.number(),
        &prefix(&[b"h0", b"gap", b"h2"]),
        "n0",
    );
    assert_eq!(hit, 1);
    assert_eq!(blocks.len(), 1);
    assert!(!local);
}

#[test]
fn lookup_prefix_full_hit_not_local_without_l0() {
    let mut auth = Authority::default();
    ensure_model(&mut auth, "m");
    let full = prefix(&[b"a", b"b"]);
    auth.register("n0", &full, vec![meta("m", b"a"), meta("m", b"b")])
        .unwrap();
    let (_, hit, local) = auth.lookup_prefix("m", "", PoolKind::Target.number(), &full, "n0");
    assert_eq!(hit, 2);
    assert!(!local);
}

#[test]
fn cross_model_isolation() {
    let mut auth = Authority::default();
    ensure_model(&mut auth, "m1");
    ensure_model(&mut auth, "m2");
    let full = prefix(&[b"shared"]);
    auth.register("n0", &full, vec![meta("m1", b"shared")])
        .unwrap();
    auth.register("n0", &full, vec![meta("m2", b"shared")])
        .unwrap();
    let (_, hit1, _) = auth.lookup_prefix("m1", "", PoolKind::Target.number(), &full, "n0");
    let (_, hit2, _) = auth.lookup_prefix("m2", "", PoolKind::Target.number(), &full, "n0");
    assert_eq!(hit1, 1);
    assert_eq!(hit2, 1);
    let (_, miss, _) = auth.lookup_prefix(
        "m1",
        "",
        PoolKind::Target.number(),
        &prefix(&[b"other"]),
        "n0",
    );
    assert_eq!(miss, 0);
}

#[test]
fn register_requires_prefix_hashes() {
    let mut auth = Authority::default();
    ensure_model(&mut auth, "m");
    let err = auth.register("n0", &[], vec![meta("m", b"a")]).unwrap_err();
    assert!(err.contains("prefix_hashes"));
}

#[test]
fn register_requires_registered_model() {
    let mut auth = Authority::default();
    let full = prefix(&[b"a"]);
    let err = auth
        .register("n0", &full, vec![meta("m", b"a")])
        .unwrap_err();
    assert!(err.contains("not registered"));
}

#[test]
fn register_miss_suffix_with_full_chain() {
    let mut auth = Authority::default();
    ensure_model(&mut auth, "m");
    let full = prefix(&[b"h0", b"h1", b"h2"]);
    auth.register("n0", &full, vec![meta("m", b"h0"), meta("m", b"h1")])
        .unwrap();
    auth.register("n0", &full, vec![meta("m", b"h2")]).unwrap();
    let (_, hit, _) = auth.lookup_prefix("m", "", PoolKind::Target.number(), &full, "n0");
    assert_eq!(hit, 3);
}

#[test]
fn register_rejects_non_contiguous_subset() {
    let mut auth = Authority::default();
    ensure_model(&mut auth, "m");
    let full = prefix(&[b"h0", b"h1", b"h2"]);
    let err = auth
        .register("n0", &full, vec![meta("m", b"h0"), meta("m", b"h2")])
        .unwrap_err();
    assert!(err.contains("contiguous"));
}

#[test]
fn lookup_stops_on_lineage_mismatch() {
    let mut auth = Authority::default();
    ensure_model(&mut auth, "m");
    let chain = prefix(&[b"A", b"B"]);
    auth.register("n0", &chain, vec![meta("m", b"A"), meta("m", b"B")])
        .unwrap();
    let (blocks, hit, _) =
        auth.lookup_prefix("m", "", PoolKind::Target.number(), &prefix(&[b"B"]), "n0");
    assert_eq!(hit, 0);
    assert!(blocks.is_empty());
}

#[test]
fn ref_freeze_and_evict() {
    let mut auth = Authority::default();
    ensure_model(&mut auth, "m");
    let full = prefix(&[b"x"]);
    auth.register("n0", &full, vec![meta("m", b"x")]).unwrap();

    let d = delta("m", b"x", 1);
    auth.report_ref(&d).unwrap();
    assert_eq!(auth.global_ref("m", "", PoolKind::Target.number(), b"x"), 1);
    assert_eq!(auth.inactive_len("m", "", PoolKind::Target.number()), 0);

    let mut d0 = d.clone();
    d0.delta = -1;
    auth.report_ref(&d0).unwrap();
    assert_eq!(auth.global_ref("m", "", PoolKind::Target.number(), b"x"), 0);
    assert_eq!(auth.inactive_len("m", "", PoolKind::Target.number()), 1);

    auth.report_ref(&d).unwrap();
    assert_eq!(auth.inactive_len("m", "", PoolKind::Target.number()), 0);
    auth.report_ref(&d0).unwrap();
    assert_eq!(auth.inactive_len("m", "", PoolKind::Target.number()), 1);

    let n = auth.evict_n("m", "", PoolKind::Target.number(), 1);
    assert_eq!(n, 1);
    let (_, hit, _) = auth.lookup_prefix("m", "", PoolKind::Target.number(), &full, "n0");
    assert_eq!(hit, 0);
}

#[test]
fn report_ref_batch_all_or_nothing() {
    let mut auth = Authority::default();
    ensure_model(&mut auth, "m");
    let full = prefix(&[b"p"]);
    auth.register("n0", &full, vec![meta("m", b"p")]).unwrap();
    let plus = delta("m", b"p", 1);
    auth.report_ref(&plus).unwrap();
    assert_eq!(auth.global_ref("m", "", PoolKind::Target.number(), b"p"), 1);

    let mut minus = plus.clone();
    minus.delta = -1;
    let unknown = delta("m", b"missing", -1);
    let err = auth.report_refs(&[minus, unknown]).unwrap_err();
    assert!(err.contains("unknown block_hash") || err.contains("batch"));
    assert_eq!(
        auth.global_ref("m", "", PoolKind::Target.number(), b"p"),
        1,
        "failed batch must not apply prefix deltas"
    );
}

#[test]
fn ref_gt_zero_not_evicted() {
    let mut auth = Authority::default();
    ensure_model(&mut auth, "m");
    let full = prefix(&[b"y"]);
    auth.register("n0", &full, vec![meta("m", b"y")]).unwrap();
    auth.report_ref(&delta("m", b"y", 1)).unwrap();
    assert_eq!(auth.evict_n("m", "", PoolKind::Target.number(), 10), 0);
    let (_, hit, _) = auth.lookup_prefix("m", "", PoolKind::Target.number(), &full, "n0");
    assert_eq!(hit, 1);
}

#[test]
fn frequency_evicts_colder_leaf_first() {
    let mut auth = Authority::default();
    ensure_model(&mut auth, "m");
    let cold = prefix(&[b"cold"]);
    let hot = prefix(&[b"hot"]);
    auth.register("n0", &cold, vec![meta("m", b"cold")])
        .unwrap();
    auth.register("n0", &hot, vec![meta("m", b"hot")]).unwrap();
    for _ in 0..64 {
        let _ = auth.lookup_prefix("m", "", PoolKind::Target.number(), &hot, "n0");
    }
    for flat in [b"cold".as_slice(), b"hot".as_slice()] {
        auth.report_ref(&delta("m", flat, 1)).unwrap();
        auth.report_ref(&delta("m", flat, -1)).unwrap();
    }
    assert_eq!(auth.inactive_len("m", "", PoolKind::Target.number()), 2);
    assert_eq!(auth.evict_n("m", "", PoolKind::Target.number(), 1), 1);
    let (_, cold_hit, _) = auth.lookup_prefix("m", "", PoolKind::Target.number(), &cold, "n0");
    let (_, hot_hit, _) = auth.lookup_prefix("m", "", PoolKind::Target.number(), &hot, "n0");
    assert_eq!(cold_hit, 0, "colder leaf should be Frequency victim");
    assert_eq!(hot_hit, 1, "touched hot leaf should survive first allocate");
}

#[test]
fn authority_evicts_leaf_before_prefix_parent() {
    let mut auth = Authority::default();
    ensure_model(&mut auth, "m");
    let chain = prefix(&[b"parent", b"child"]);
    auth.register(
        "n0",
        &chain,
        vec![meta("m", b"parent"), meta("m", b"child")],
    )
    .unwrap();
    for flat in [b"parent".as_slice(), b"child".as_slice()] {
        auth.report_ref(&delta("m", flat, 1)).unwrap();
        auth.report_ref(&delta("m", flat, -1)).unwrap();
    }
    assert_eq!(auth.evict_n("m", "", PoolKind::Target.number(), 1), 1);
    let (_, parent_only, _) = auth.lookup_prefix(
        "m",
        "",
        PoolKind::Target.number(),
        &prefix(&[b"parent"]),
        "n0",
    );
    assert_eq!(parent_only, 1, "prefix parent must survive first evict");
    let (_, chain_hit, _) = auth.lookup_prefix("m", "", PoolKind::Target.number(), &chain, "n0");
    assert_eq!(chain_hit, 1);
}

#[test]
fn inactive_cap_skip_insert_no_zombie() {
    let cap = 4;
    let mut auth = Authority::with_inactive_cap(cap);
    ensure_model(&mut auth, "m");
    let n = cap * 2;
    let mut flats: Vec<Vec<u8>> = Vec::with_capacity(n);
    for i in 0..n {
        let flat = format!("leaf{i:02}").into_bytes();
        let full = prefix(&[flat.as_slice()]);
        auth.register("n0", &full, vec![meta("m", &flat)]).unwrap();
        auth.report_ref(&delta("m", &flat, 1)).unwrap();
        auth.report_ref(&delta("m", &flat, -1)).unwrap();
        flats.push(flat);
        assert!(
            auth.inactive_len("m", "", PoolKind::Target.number()) <= cap
        );
    }
    assert_eq!(auth.inactive_len("m", "", PoolKind::Target.number()), cap);
    let (_, early_hit, _) = auth.lookup_prefix(
        "m",
        "",
        PoolKind::Target.number(),
        &prefix(&[flats[0].as_slice()]),
        "n0",
    );
    assert_eq!(early_hit, 1, "skip-insert must not drop view entries");
    let removed = auth.evict_n("m", "", PoolKind::Target.number(), cap);
    assert_eq!(removed, cap, "allocate must clear all inactive at cap");
    assert_eq!(auth.inactive_len("m", "", PoolKind::Target.number()), 0);
}

#[test]
fn report_refs_mid_batch_must_not_panic_or_drop_peer() {
    let mut auth = Authority::with_inactive_cap(1);
    ensure_model(&mut auth, "m");
    let held = prefix(&[b"held"]);
    let cand = prefix(&[b"cand"]);
    auth.register("n0", &held, vec![meta("m", b"held")])
        .unwrap();
    auth.register("n0", &cand, vec![meta("m", b"cand")])
        .unwrap();

    auth.report_ref(&delta("m", b"cand", 1)).unwrap();
    auth.report_ref(&delta("m", b"cand", -1)).unwrap();
    auth.report_ref(&delta("m", b"held", 1)).unwrap();
    assert_eq!(auth.inactive_len("m", "", PoolKind::Target.number()), 1);
    assert_eq!(
        auth.global_ref("m", "", PoolKind::Target.number(), b"held"),
        1
    );
    assert_eq!(
        auth.global_ref("m", "", PoolKind::Target.number(), b"cand"),
        0
    );

    auth.report_refs(&[delta("m", b"held", -1), delta("m", b"cand", 1)])
        .unwrap();
    assert_eq!(
        auth.global_ref("m", "", PoolKind::Target.number(), b"held"),
        0
    );
    assert_eq!(
        auth.global_ref("m", "", PoolKind::Target.number(), b"cand"),
        1
    );
    assert_eq!(auth.inactive_len("m", "", PoolKind::Target.number()), 0);
    let (_, cand_hit, _) = auth.lookup_prefix("m", "", PoolKind::Target.number(), &cand, "n0");
    assert_eq!(cand_hit, 1, "peer must not be pressure-evicted mid-batch");
}

#[test]
fn writeback_ref_blocks_evict_until_cleared() {
    let mut auth = Authority::default();
    ensure_model(&mut auth, "m");
    let full = prefix(&[b"wb0"]);
    auth.register("n0", &full, vec![meta("m", b"wb0")]).unwrap();
    let mut plus = delta("m", b"wb0", 1);
    plus.kind = RefKind::Writeback.number();
    auth.report_ref(&plus).unwrap();
    assert_eq!(auth.global_ref("m", "", PoolKind::Target.number(), b"wb0"), 1);
    assert_eq!(
        auth.evict_n("m", "", PoolKind::Target.number(), 10),
        0,
        "writeback must freeze"
    );

    let mut minus = plus.clone();
    minus.delta = -1;
    auth.report_ref(&minus).unwrap();
    auth.complete_barrier("req-wb", "n0").unwrap();
    assert!(auth.barrier_completed("req-wb"));
    assert_eq!(auth.evict_n("m", "", PoolKind::Target.number(), 1), 1);
    let (_, hit, _) = auth.lookup_prefix("m", "", PoolKind::Target.number(), &full, "n0");
    assert_eq!(hit, 0);
}

#[test]
fn request_barrier_requires_ids() {
    let mut auth = Authority::default();
    assert!(auth.complete_barrier("", "n0").is_err());
    assert!(auth.complete_barrier("r", "").is_err());
}

#[test]
fn report_ref_underflow_is_rejected() {
    let mut auth = Authority::default();
    ensure_model(&mut auth, "m");
    let full = prefix(&[b"under"]);
    auth.register("n0", &full, vec![meta("m", b"under")])
        .unwrap();
    let minus = delta("m", b"under", -1);
    let err = auth.report_ref(&minus).unwrap_err();
    assert!(err.contains("underflow"));
    assert_eq!(
        auth.global_ref("m", "", PoolKind::Target.number(), b"under"),
        0
    );
    assert_eq!(auth.inactive_len("m", "", PoolKind::Target.number()), 0);
}

#[test]
fn report_refs_underflow_is_all_or_nothing() {
    let mut auth = Authority::default();
    ensure_model(&mut auth, "m");
    let full = prefix(&[b"ok", b"bad"]);
    auth.register("n0", &full, vec![meta("m", b"ok"), meta("m", b"bad")])
        .unwrap();
    let err = auth
        .report_refs(&[delta("m", b"ok", 1), delta("m", b"bad", -1)])
        .unwrap_err();
    assert!(err.contains("underflow"));
    assert_eq!(auth.global_ref("m", "", PoolKind::Target.number(), b"ok"), 0);
    assert_eq!(auth.global_ref("m", "", PoolKind::Target.number(), b"bad"), 0);
}

#[test]
fn report_refs_node_underflow_is_all_or_nothing() {
    let mut auth = Authority::default();
    ensure_model(&mut auth, "m");
    let full = prefix(&[b"a", b"b"]);
    auth.register("n0", &full, vec![meta("m", b"a"), meta("m", b"b")])
        .unwrap();
    auth.report_ref(&delta("m", b"a", 1)).unwrap();

    let mut wrong_node_release = delta("m", b"a", -1);
    wrong_node_release.node_id = "n1".into();
    let err = auth
        .report_refs(&[delta("m", b"b", 1), wrong_node_release])
        .unwrap_err();
    assert!(err.contains("node_ref underflow"));
    assert_eq!(auth.global_ref("m", "", PoolKind::Target.number(), b"a"), 1);
    assert_eq!(auth.global_ref("m", "", PoolKind::Target.number(), b"b"), 0);
}

#[test]
fn view_events_cover_mutation_paths() {
    let mut auth = Authority::default();
    ensure_model(&mut auth, "m");
    let full = prefix(&[b"h0", b"h1"]);
    auth.register("n0", &full, vec![meta("m", b"h0"), meta("m", b"h1")])
        .unwrap();
    let u = auth.commit_view_events().unwrap();
    assert_eq!(u.seq, 1);
    assert_eq!(u.events.len(), 2);
    assert!(u
        .events
        .iter()
        .all(|e| e.kind == ViewKind::Registered.number()));

    auth.publish_location(
        "m",
        "",
        PoolKind::Target.number(),
        b"h0",
        Tier::L0,
        "n0",
        true,
    )
    .unwrap();
    let u = auth.commit_view_events().unwrap();
    assert_eq!(u.events.len(), 1);
    assert_eq!(u.events[0].kind, ViewKind::Moved.number());
    assert_eq!(u.events[0].locations.len(), 2);

    auth.discard_blocks(&[KvBlockId {
        model_id: "m".into(),
        revision: String::new(),
        pool_kind: PoolKind::Target.number(),
        block_hash: b"h0".to_vec(),
        scope: "public".into(),
    }])
    .unwrap();
    let u = auth.commit_view_events().unwrap();
    assert_eq!(u.events.len(), 1);
    assert_eq!(u.events[0].kind, ViewKind::Invalidated.number());

    auth.report_refs(&[delta("m", b"h1", 1)]).unwrap();
    auth.report_refs(&[delta("m", b"h1", -1)]).unwrap();
    assert_eq!(auth.evict_n("m", "", PoolKind::Target.number(), 1), 1);
    let u = auth.commit_view_events().unwrap();
    assert!(u
        .events
        .iter()
        .any(|e| e.kind == ViewKind::Invalidated.number()));
}

#[test]
fn view_events_cover_relocate_in_view() {
    let mut auth = Authority::default();
    ensure_model(&mut auth, "m");
    auth.register("n0", &prefix(&[b"h0"]), vec![meta("m", b"h0")])
        .unwrap();
    auth.commit_view_events();
    auth.relocate_in_view(
        "m",
        "",
        PoolKind::Target.number(),
        b"h0",
        Tier::L2,
        "n0",
        7,
        42,
    )
    .unwrap();
    let u = auth.commit_view_events().unwrap();
    assert_eq!(u.events.len(), 1);
    assert_eq!(u.events[0].kind, ViewKind::Moved.number());
    assert_eq!(u.events[0].locations[0].segment_id, 7);
    assert_eq!(u.events[0].locations[0].offset, 42);
}

#[test]
fn register_rejects_invented_l2() {
    let mut auth = Authority::default();
    ensure_model(&mut auth, "m");
    let full = prefix(&[b"bare"]);
    let mut m = meta("m", b"bare");
    m.locations.clear();
    assert!(auth.register("n0", &full, vec![m]).is_err());
}

#[test]
fn publish_l0_enables_local_hit() {
    let mut auth = Authority::default();
    ensure_model(&mut auth, "m");
    let full = prefix(&[b"loc"]);
    auth.register("n0", &full, vec![meta("m", b"loc")]).unwrap();
    auth.publish_location(
        "m",
        "",
        PoolKind::Target.number(),
        b"loc",
        Tier::L0,
        "n0",
        true,
    )
    .unwrap();
    assert!(auth.has_l0_on("m", "", PoolKind::Target.number(), b"loc", "n0"));
    let (_, _, all_local) = auth.lookup_prefix("m", "", PoolKind::Target.number(), &full, "n0");
    assert!(all_local);
    auth.publish_location(
        "m",
        "",
        PoolKind::Target.number(),
        b"loc",
        Tier::L0,
        "n0",
        false,
    )
    .unwrap();
    let (_, _, all_local) = auth.lookup_prefix("m", "", PoolKind::Target.number(), &full, "n0");
    assert!(!all_local);
}

#[test]
fn p45_two_models_same_hash_no_crosstalk() {
    let mut auth = Authority::default();
    ensure_model(&mut auth, "llama");
    ensure_model(&mut auth, "qwen");
    let full = prefix(&[b"samehash"]);
    auth.register("n0", &full, vec![meta("llama", b"samehash")])
        .unwrap();
    let (_, hit_q, _) = auth.lookup_prefix("qwen", "", PoolKind::Target.number(), &full, "n0");
    assert_eq!(hit_q, 0);
    auth.register("n0", &full, vec![meta("qwen", b"samehash")])
        .unwrap();
    let (_, hit_l, _) = auth.lookup_prefix("llama", "", PoolKind::Target.number(), &full, "n0");
    let (_, hit_q, _) = auth.lookup_prefix("qwen", "", PoolKind::Target.number(), &full, "n0");
    assert_eq!(hit_l, 1);
    assert_eq!(hit_q, 1);
    auth.deregister_model("llama", "").unwrap();
    let (_, hit_l, _) = auth.lookup_prefix("llama", "", PoolKind::Target.number(), &full, "n0");
    let (_, hit_q, _) = auth.lookup_prefix("qwen", "", PoolKind::Target.number(), &full, "n0");
    assert_eq!(hit_l, 0, "llama cascaded away");
    assert_eq!(hit_q, 1, "qwen untouched");
}

#[test]
fn p45_deregister_cascades_view() {
    let mut auth = Authority::default();
    ensure_model(&mut auth, "m");
    let full = prefix(&[b"a", b"b"]);
    auth.register("n0", &full, vec![meta("m", b"a"), meta("m", b"b")])
        .unwrap();
    assert_eq!(auth.block_count("m", ""), 2);
    auth.deregister_model("m", "").unwrap();
    assert!(!auth.has_namespace("m", ""));
    assert_eq!(auth.block_count("m", ""), 0);
    let (_, hit, _) = auth.lookup_prefix("m", "", PoolKind::Target.number(), &full, "n0");
    assert_eq!(hit, 0);
    ensure_model(&mut auth, "m");
    auth.register("n0", &full, vec![meta("m", b"a")]).unwrap();
    let (_, hit, _) =
        auth.lookup_prefix("m", "", PoolKind::Target.number(), &prefix(&[b"a"]), "n0");
    assert_eq!(hit, 1);
}

#[test]
fn p45_revision_isolation_and_invalidate() {
    let mut auth = Authority::default();
    ensure_model_rev(&mut auth, "m", "r1");
    ensure_model_rev(&mut auth, "m", "r2");
    let full = prefix(&[b"pfx"]);
    auth.register("n0", &full, vec![meta_rev("m", "r1", b"pfx")])
        .unwrap();
    auth.register("n0", &full, vec![meta_rev("m", "r2", b"pfx")])
        .unwrap();
    let (_, h1, _) = auth.lookup_prefix("m", "r1", PoolKind::Target.number(), &full, "n0");
    let (_, h2, _) = auth.lookup_prefix("m", "r2", PoolKind::Target.number(), &full, "n0");
    assert_eq!(h1, 1);
    assert_eq!(h2, 1);
    let (_, h_cross, _) = auth.lookup_prefix("m", "r1", PoolKind::Target.number(), &full, "n0");
    assert_eq!(h_cross, 1);
    auth.deregister_model("m", "r1").unwrap();
    let (_, h1, _) = auth.lookup_prefix("m", "r1", PoolKind::Target.number(), &full, "n0");
    let (_, h2, _) = auth.lookup_prefix("m", "r2", PoolKind::Target.number(), &full, "n0");
    assert_eq!(h1, 0, "r1 invalidated");
    assert_eq!(h2, 1, "r2 still live");
    assert!(auth.has_namespace("m", "r2"));
    assert!(!auth.has_namespace("m", "r1"));
}

#[test]
fn register_model_rejects_immutable_change() {
    let mut auth = Authority::default();
    ensure_model(&mut auth, "m");
    let err = auth
        .register_model(ModelDescriptor {
            model_id: "m".into(),
            revision: String::new(),
            num_layers: 64,
            block_spec: Some(BlockSpec {
                block_tokens: 128,
                bytes_per_block: 0,
            }),
            hash_algo: HashAlgo::HashSha256256.number(),
            quota: None,
        })
        .unwrap_err();
    assert!(err.contains("immutable") || err.contains("new revision"));
    let full = prefix(&[b"x"]);
    auth.register("n0", &full, vec![meta("m", b"x")]).unwrap();
    let (_, hit, _) = auth.lookup_prefix("m", "", PoolKind::Target.number(), &full, "n0");
    assert_eq!(hit, 1);
}

#[test]
fn p45_target_draft_same_hash_no_crosstalk() {
    let mut auth = Authority::default();
    ensure_model(&mut auth, "m");
    let full = prefix(&[b"shared"]);
    auth.register("n0", &full, vec![meta("m", b"shared")])
        .unwrap();
    let mut draft = meta("m", b"shared");
    draft.id.as_mut().unwrap().pool_kind = PoolKind::Draft.number();
    auth.register("n0", &full, vec![draft]).unwrap();

    let (_, t_hit, _) = auth.lookup_prefix("m", "", PoolKind::Target.number(), &full, "n0");
    let (_, d_hit, _) = auth.lookup_prefix("m", "", PoolKind::Draft.number(), &full, "n0");
    assert_eq!(t_hit, 1);
    assert_eq!(d_hit, 1);

    let t_id = KvBlockId {
        model_id: "m".into(),
        block_hash: b"shared".to_vec(),
        pool_kind: PoolKind::Target.number(),
        scope: "public".into(),
        revision: String::new(),
    };
    let mut d_id = t_id.clone();
    d_id.pool_kind = PoolKind::Draft.number();
    assert_eq!(auth.locate(std::slice::from_ref(&t_id)).len(), 1);
    assert_eq!(auth.locate(std::slice::from_ref(&d_id)).len(), 1);

    auth.report_ref(&delta("m", b"shared", 1)).unwrap();
    auth.report_ref(&delta("m", b"shared", -1)).unwrap();
    assert_eq!(auth.evict_n("m", "", PoolKind::Target.number(), 1), 1);
    let (_, t_hit, _) = auth.lookup_prefix("m", "", PoolKind::Target.number(), &full, "n0");
    let (_, d_hit, _) = auth.lookup_prefix("m", "", PoolKind::Draft.number(), &full, "n0");
    assert_eq!(t_hit, 0, "target evicted");
    assert_eq!(d_hit, 1, "draft untouched");
}

fn ensure_model_quota(
    auth: &mut Authority,
    model: &str,
    soft: i64,
    hard: i64,
    borrow: bool,
    bpb: u64,
) {
    auth.register_model(ModelDescriptor {
        model_id: model.into(),
        revision: String::new(),
        num_layers: 32,
        block_spec: Some(BlockSpec {
            block_tokens: 128,
            bytes_per_block: bpb,
        }),
        hash_algo: HashAlgo::HashSha256256.number(),
        quota: Some(Quota {
            soft_bytes: soft,
            hard_bytes: hard,
            borrow_enabled: borrow,
        }),
    })
    .unwrap();
}

#[test]
fn p46_hard_quota_a_does_not_affect_b() {
    let mut auth = Authority::default();
    ensure_model_quota(&mut auth, "A", 100, 200, false, 100);
    ensure_model_quota(&mut auth, "B", 100, 200, false, 100);

    assert_eq!(
        auth.register("n0", &prefix(&[b"a0"]), vec![meta("A", b"a0")])
            .unwrap(),
        RegisterStatus::Accepted
    );
    assert_eq!(
        auth.register("n0", &prefix(&[b"a1"]), vec![meta("A", b"a1")])
            .unwrap(),
        RegisterStatus::Accepted
    );
    match auth
        .register("n0", &prefix(&[b"a2"]), vec![meta("A", b"a2")])
        .unwrap()
    {
        RegisterStatus::RejectedHardQuota(bp) => {
            assert_eq!(bp.model_id, "A");
            assert_eq!(bp.reason, "HARD_QUOTA");
            assert!(bp.deficit_bytes > 0);
        }
        other => panic!("expected RejectedHardQuota, got {other:?}"),
    }
    assert_eq!(auth.used_bytes("A", ""), 200);
    assert_eq!(auth.block_count("A", ""), 2);

    assert_eq!(
        auth.register("n0", &prefix(&[b"b0"]), vec![meta("B", b"b0")])
            .unwrap(),
        RegisterStatus::Accepted
    );
    assert_eq!(auth.used_bytes("B", ""), 100);
    let (_, hit, _) =
        auth.lookup_prefix("B", "", PoolKind::Target.number(), &prefix(&[b"b0"]), "n0");
    assert_eq!(hit, 1);
}

#[test]
fn p46_borrow_and_reclaim() {
    let mut auth = Authority::default();
    auth.set_pool_capacity_bytes(300);
    ensure_model_quota(&mut auth, "A", 100, 300, true, 100);
    ensure_model_quota(&mut auth, "B", 100, 300, true, 100);

    assert_eq!(
        auth.register("n0", &prefix(&[b"a0"]), vec![meta("A", b"a0")])
            .unwrap(),
        RegisterStatus::Accepted
    );
    assert_eq!(
        auth.register("n0", &prefix(&[b"a1"]), vec![meta("A", b"a1")])
            .unwrap(),
        RegisterStatus::Accepted
    );
    let snap = auth.get_model_quota("A", "").unwrap();
    assert_eq!(snap.used_bytes, 200);
    assert_eq!(snap.borrowed_bytes, 100);

    auth.report_ref(&delta("A", b"a1", 1)).unwrap();
    auth.report_ref(&delta("A", b"a1", -1)).unwrap();

    assert_eq!(
        auth.register("n0", &prefix(&[b"b0"]), vec![meta("B", b"b0")])
            .unwrap(),
        RegisterStatus::Accepted
    );
    assert_eq!(
        auth.register("n0", &prefix(&[b"b1"]), vec![meta("B", b"b1")])
            .unwrap(),
        RegisterStatus::Accepted
    );
    assert!(auth.used_bytes("A", "") <= 100, "A borrow reclaimed");
    assert_eq!(auth.used_bytes("B", ""), 200);
    let (_, a_hit, _) =
        auth.lookup_prefix("A", "", PoolKind::Target.number(), &prefix(&[b"a1"]), "n0");
    assert_eq!(a_hit, 0, "reclaimed a1");
}

#[test]
fn p46_pool_capacity_reject_is_not_hard_quota() {
    let mut auth = Authority::default();
    auth.set_pool_capacity_bytes(200);
    ensure_model_quota(&mut auth, "m", 100, 300, true, 100);

    assert_eq!(
        auth.register("n0", &prefix(&[b"a0"]), vec![meta("m", b"a0")])
            .unwrap(),
        RegisterStatus::Accepted
    );
    assert_eq!(
        auth.register("n0", &prefix(&[b"a1"]), vec![meta("m", b"a1")])
            .unwrap(),
        RegisterStatus::Accepted
    );
    match auth
        .register("n0", &prefix(&[b"a2"]), vec![meta("m", b"a2")])
        .unwrap()
    {
        RegisterStatus::RejectedHardQuota(bp) => {
            assert_eq!(bp.reason, "POOL_CAPACITY");
            assert_eq!(bp.hard_bytes, 300);
            assert!(bp.deficit_bytes > 0);
        }
        other => panic!("expected capacity reject, got {other:?}"),
    }
    assert_eq!(auth.block_count("m", ""), 2);
}

#[test]
fn p46_set_get_quota_and_backpressure_signal() {
    let mut auth = Authority::default();
    ensure_model_quota(&mut auth, "m", 0, 0, false, 50);
    assert_eq!(
        auth.register("n0", &prefix(&[b"x"]), vec![meta("m", b"x")])
            .unwrap(),
        RegisterStatus::Accepted
    );
    auth.set_model_quota(
        "m",
        "",
        Quota {
            soft_bytes: 50,
            hard_bytes: 50,
            borrow_enabled: false,
        },
    )
    .unwrap();
    let g = auth.get_model_quota("m", "").unwrap();
    assert_eq!(g.used_bytes, 50);
    assert_eq!(g.quota.as_ref().unwrap().hard_bytes, 50);

    match auth
        .register("n0", &prefix(&[b"y"]), vec![meta("m", b"y")])
        .unwrap()
    {
        RegisterStatus::RejectedHardQuota(bp) => {
            assert_eq!(bp.reason, "HARD_QUOTA");
            assert_eq!(bp.hard_bytes, 50);
        }
        other => panic!("expected backpressure reject, got {other:?}"),
    }
}

#[test]
fn p46_hard_reject_is_side_effect_free() {
    let mut auth = Authority::default();
    ensure_model_quota(&mut auth, "m", 200, 200, false, 100);
    assert_eq!(
        auth.register("n0", &prefix(&[b"a0"]), vec![meta("m", b"a0")])
            .unwrap(),
        RegisterStatus::Accepted
    );
    assert_eq!(
        auth.register("n0", &prefix(&[b"a1"]), vec![meta("m", b"a1")])
            .unwrap(),
        RegisterStatus::Accepted
    );
    auth.set_model_quota(
        "m",
        "",
        Quota {
            soft_bytes: 100,
            hard_bytes: 100,
            borrow_enabled: false,
        },
    )
    .unwrap();
    auth.report_ref(&delta("m", b"a1", 1)).unwrap();
    auth.report_ref(&delta("m", b"a1", -1)).unwrap();
    assert_eq!(auth.inactive_len("m", "", PoolKind::Target.number()), 1);

    match auth
        .register("n0", &prefix(&[b"a2"]), vec![meta("m", b"a2")])
        .unwrap()
    {
        RegisterStatus::RejectedHardQuota(_) => {}
        other => panic!("expected RejectedHardQuota, got {other:?}"),
    }
    let (_, hit, _) =
        auth.lookup_prefix("m", "", PoolKind::Target.number(), &prefix(&[b"a1"]), "n0");
    assert_eq!(hit, 1, "hard reject must not evict existing blocks");
    assert_eq!(auth.block_count("m", ""), 2);
    assert_eq!(auth.used_bytes("m", ""), 200);
}

#[test]
fn p46_register_model_rejects_invalid_quota() {
    let mut auth = Authority::default();
    let err = auth
        .register_model(ModelDescriptor {
            model_id: "bad".into(),
            revision: String::new(),
            num_layers: 1,
            block_spec: Some(BlockSpec {
                block_tokens: 128,
                bytes_per_block: 1,
            }),
            hash_algo: HashAlgo::HashSha256256.number(),
            quota: Some(Quota {
                soft_bytes: 200,
                hard_bytes: 100,
                borrow_enabled: false,
            }),
        })
        .unwrap_err();
    assert!(err.contains("soft_bytes") || err.contains("quota"));

    ensure_model_quota(&mut auth, "ok", 100, 200, false, 1);
    let err = auth
        .register_model(ModelDescriptor {
            model_id: "ok".into(),
            revision: String::new(),
            num_layers: 32,
            block_spec: Some(BlockSpec {
                block_tokens: 128,
                bytes_per_block: 1,
            }),
            hash_algo: HashAlgo::HashSha256256.number(),
            quota: Some(Quota {
                soft_bytes: -1,
                hard_bytes: 0,
                borrow_enabled: false,
            }),
        })
        .unwrap_err();
    assert!(err.contains("non-negative") || err.contains("quota"));
}

fn meta_l0_l2(model: &str, hash: &[u8]) -> BlockMeta {
    let mut m = meta(model, hash);
    m.locations.push(Location {
        tier: Tier::L0.number(),
        node_id: "n0".into(),
        segment_id: 1,
        offset: 0,
    });
    m
}

#[test]
fn p47_cold_gc_strips_l0_keeps_l2() {
    let mut auth = Authority::default();
    ensure_model(&mut auth, "m");
    let full = prefix(&[b"c0"]);
    auth.register("n0", &full, vec![meta_l0_l2("m", b"c0")])
        .unwrap();
    assert!(auth.has_l0_on("m", "", PoolKind::Target.number(), b"c0", "n0"));
    auth.report_ref(&delta("m", b"c0", 1)).unwrap();
    auth.report_ref(&delta("m", b"c0", -1)).unwrap();

    let (stripped, discarded) = auth.gc_cold("m", "", PoolKind::Target.number(), 1).unwrap();
    assert_eq!(stripped.len(), 1);
    assert!(discarded.is_empty());
    assert!(!auth.has_l0_on("m", "", PoolKind::Target.number(), b"c0", "n0"));
    let (_, hit, _) = auth.lookup_prefix("m", "", PoolKind::Target.number(), &full, "n0");
    assert_eq!(hit, 1, "radix + L2 must remain");
}

#[test]
fn p47_dead_node_clears_writeback_ref() {
    let mut auth = Authority::default();
    ensure_model(&mut auth, "m");
    let full = prefix(&[b"wb"]);
    auth.register("n0", &full, vec![meta("m", b"wb")]).unwrap();
    auth.report_ref(&RefDelta {
        id: Some(KvBlockId {
            model_id: "m".into(),
            block_hash: b"wb".to_vec(),
            pool_kind: PoolKind::Target.number(),
            scope: "public".into(),
            revision: String::new(),
        }),
        kind: RefKind::Writeback.number(),
        delta: 1,
        node_id: "n0".into(),
    })
    .unwrap();
    assert_eq!(auth.global_ref("m", "", PoolKind::Target.number(), b"wb"), 1);
    assert_eq!(auth.evict_n("m", "", PoolKind::Target.number(), 1), 0);

    let (cleared, _) = auth.reconcile_dead_node("n0").unwrap();
    assert_eq!(cleared, 1);
    assert_eq!(auth.global_ref("m", "", PoolKind::Target.number(), b"wb"), 0);
    assert_eq!(auth.evict_n("m", "", PoolKind::Target.number(), 1), 1);
}

#[test]
fn p47_dead_node_l0_presence_precise() {
    let mut auth = Authority::default();
    ensure_model(&mut auth, "m");
    let pk = PoolKind::Target.number();
    auth.register("n0", &prefix(&[b"l0"]), vec![meta("m", b"l0")])
        .unwrap();
    auth.publish_location("m", "", pk, b"l0", Tier::L0, "n0", true)
        .unwrap();
    auth.publish_location("m", "", pk, b"l0", Tier::L0, "n1", true)
        .unwrap();
    assert!(auth.has_l0_presence("m", "", pk, b"l0"));
    assert!(auth.has_l0_on("m", "", pk, b"l0", "n0"));
    assert!(auth.has_l0_on("m", "", pk, b"l0", "n1"));

    auth.reconcile_dead_node("n0").unwrap();
    assert!(
        auth.has_l0_presence("m", "", pk, b"l0"),
        "one L0 replica remains on n1"
    );
    assert!(!auth.has_l0_on("m", "", pk, b"l0", "n0"));
    assert!(auth.has_l0_on("m", "", pk, b"l0", "n1"));

    auth.reconcile_dead_node("n1").unwrap();
    assert!(
        !auth.has_l0_presence("m", "", pk, b"l0"),
        "no L0 replica remains; shadow must be cleared"
    );
    assert!(!auth.has_l0_on("m", "", pk, b"l0", "n1"));
}

#[test]
fn p47_checkpoint_roundtrip() {
    let mut store = MemoryCheckpointStore::new();
    let mut auth = Authority::default();
    ensure_model(&mut auth, "m");
    let full = prefix(&[b"p"]);
    auth.register("n0", &full, vec![meta("m", b"p")]).unwrap();
    let snap = auth.export_snapshot(1);
    store.save(snap.clone()).unwrap();

    let mut auth2 = Authority::default();
    auth2
        .import_snapshot(&store.load().unwrap().unwrap())
        .unwrap();
    assert!(auth2.has_namespace("m", ""));
    let (_, hit, _) = auth2.lookup_prefix("m", "", PoolKind::Target.number(), &full, "n0");
    assert_eq!(hit, 1);
}

#[test]
fn p47_checkpoint_multilineage_restore() {
    let mut auth = Authority::default();
    ensure_model(&mut auth, "m");
    let full = prefix(&[b"h0", b"h1"]);
    auth.register("n0", &full, vec![meta("m", b"h0"), meta("m", b"h1")])
        .unwrap();
    let (_, hit, _) = auth.lookup_prefix("m", "", PoolKind::Target.number(), &full, "n0");
    assert_eq!(hit, 2);

    let snap = auth.export_snapshot(2);
    assert_eq!(snap.blocks.len(), 2);
    assert!(
        snap.blocks.iter().any(|b| b.prefix_chain.len() == 2),
        "child block must export full prefix_chain"
    );

    let mut auth2 = Authority::default();
    auth2.import_snapshot(&snap).unwrap();
    let (_, hit2, _) = auth2.lookup_prefix("m", "", PoolKind::Target.number(), &full, "n0");
    assert_eq!(hit2, 2);
}

#[test]
fn p47_checkpoint_restore_rejects_quota_loss() {
    let mut auth = Authority::default();
    ensure_model_quota(&mut auth, "m", 0, 0, false, 100);
    auth.register("n0", &prefix(&[b"q"]), vec![meta("m", b"q")])
        .unwrap();
    let mut snap = auth.export_snapshot(3);
    snap.models[0].quota = Some(Quota {
        soft_bytes: 50,
        hard_bytes: 50,
        borrow_enabled: false,
    });

    let mut restored = Authority::default();
    let err = restored.import_snapshot(&snap).unwrap_err();
    assert!(
        err.contains("import_snapshot register rejected"),
        "restore must not report success after dropping a block: {err}"
    );
    assert_eq!(restored.block_count("m", ""), 0);
}

#[test]
fn p47_cold_gc_reinserts_durable_inactive() {
    let mut auth = Authority::default();
    ensure_model(&mut auth, "m");
    let full = prefix(&[b"c0"]);
    auth.register("n0", &full, vec![meta_l0_l2("m", b"c0")])
        .unwrap();
    auth.report_ref(&delta("m", b"c0", 1)).unwrap();
    auth.report_ref(&delta("m", b"c0", -1)).unwrap();
    assert_eq!(auth.inactive_len("m", "", PoolKind::Target.number()), 1);

    let (stripped, discarded) = auth.gc_cold("m", "", PoolKind::Target.number(), 1).unwrap();
    assert_eq!(stripped.len(), 1);
    assert!(discarded.is_empty());
    assert_eq!(
        auth.inactive_len("m", "", PoolKind::Target.number()),
        1,
        "durable victim must return to inactive after L0/L1 peel"
    );
    let (stripped2, _) = auth.gc_cold("m", "", PoolKind::Target.number(), 1).unwrap();
    assert_eq!(stripped2.len(), 1);
    assert_eq!(auth.inactive_len("m", "", PoolKind::Target.number()), 1);
}

#[test]
fn p47_discard_rejects_refed_block() {
    let mut auth = Authority::default();
    ensure_model(&mut auth, "m");
    let full = prefix(&[b"live"]);
    auth.register("n0", &full, vec![meta("m", b"live")])
        .unwrap();
    auth.report_ref(&delta("m", b"live", 1)).unwrap();

    let id = KvBlockId {
        model_id: "m".into(),
        block_hash: b"live".to_vec(),
        pool_kind: PoolKind::Target.number(),
        scope: "public".into(),
        revision: String::new(),
    };
    let err = auth.discard_blocks(&[id]).unwrap_err();
    assert!(err.contains("global_refs"));
    let (_, hit, _) = auth.lookup_prefix("m", "", PoolKind::Target.number(), &full, "n0");
    assert_eq!(hit, 1, "refed block must remain visible");
}

fn meta_l2_at(model: &str, hash: &[u8], seg: u64, off: u64) -> BlockMeta {
    let mut m = meta(model, hash);
    m.locations[0].segment_id = seg;
    m.locations[0].offset = off;
    m
}

fn l2_offset(auth: &Authority, model: &str, hash: &[u8]) -> (u64, u64) {
    let id = KvBlockId {
        model_id: model.into(),
        block_hash: hash.to_vec(),
        pool_kind: PoolKind::Target.number(),
        scope: "public".into(),
        revision: String::new(),
    };
    let metas = auth.locate(&[id]);
    let loc = metas[0]
        .locations
        .iter()
        .find(|l| l.tier == Tier::L2.number())
        .expect("L2");
    (loc.segment_id, loc.offset)
}

#[test]
fn p48_plan_compact_on_holes() {
    let mut auth = Authority::default();
    ensure_model(&mut auth, "m");
    let slot = 100u64;
    auth.register(
        "n0",
        &prefix(&[b"a", b"b", b"c"]),
        vec![
            meta_l2_at("m", b"a", 1, 0),
            meta_l2_at("m", b"b", 1, 200),
            meta_l2_at("m", b"c", 1, 300),
        ],
    )
    .unwrap();
    let moves = auth
        .plan_defrag("m", "", PoolKind::Target.number(), DefragMode::Compact, slot)
        .unwrap();
    assert_eq!(moves.len(), 1);
    assert!(moves[0].compact_segment);
    assert_eq!(moves[0].segment_id, 1);
}

#[test]
fn p48_plan_compact_skips_segment_with_refed_block() {
    let mut auth = Authority::default();
    ensure_model(&mut auth, "m");
    let slot = 100u64;
    auth.register(
        "n0",
        &prefix(&[b"a", b"b", b"c"]),
        vec![
            meta_l2_at("m", b"a", 1, 0),
            meta_l2_at("m", b"b", 1, 200),
            meta_l2_at("m", b"c", 1, 300),
        ],
    )
    .unwrap();
    auth.report_ref(&delta("m", b"b", 1)).unwrap();
    let moves = auth
        .plan_defrag("m", "", PoolKind::Target.number(), DefragMode::Compact, slot)
        .unwrap();
    assert!(
        moves.is_empty(),
        "segment containing ref>0 block must not be compacted: {moves:?}"
    );
}

#[test]
fn p48_plan_colocate_prefix_chain() {
    let mut auth = Authority::default();
    ensure_model(&mut auth, "m");
    let slot = 64u64;
    auth.register(
        "n0",
        &prefix(&[b"h0", b"h1"]),
        vec![meta_l2_at("m", b"h0", 1, 0), meta_l2_at("m", b"h1", 2, 0)],
    )
    .unwrap();
    let moves = auth
        .plan_defrag("m", "", PoolKind::Target.number(), DefragMode::Colocate, slot)
        .unwrap();
    assert!(
        moves
            .iter()
            .any(|m| !m.compact_segment && m.to_segment == 1),
        "expected co-locate onto seg1; got {moves:?}"
    );
    assert!(moves.iter().all(|m| m.node_id == "n0"));
}

#[test]
fn p48_plan_colocate_skips_cross_node() {
    let mut auth = Authority::default();
    ensure_model(&mut auth, "m");
    let slot = 64u64;
    let mut m0 = meta_l2_at("m", b"h0", 1, 0);
    m0.locations[0].node_id = "n0".into();
    let mut m1 = meta_l2_at("m", b"h1", 1, 0);
    m1.locations[0].node_id = "n1".into();
    auth.register("n0", &prefix(&[b"h0", b"h1"]), vec![m0, m1])
        .unwrap();
    let moves = auth
        .plan_defrag("m", "", PoolKind::Target.number(), DefragMode::Colocate, slot)
        .unwrap();
    assert!(
        moves.is_empty(),
        "cross-node co-locate deferred to P5; got {moves:?}"
    );
}

#[test]
fn p48_plan_colocate_avoids_occupied_slots() {
    let mut auth = Authority::default();
    ensure_model(&mut auth, "m");
    let slot = 64u64;
    auth.register("n0", &prefix(&[b"x"]), vec![meta_l2_at("m", b"x", 1, 0)])
        .unwrap();
    auth.register(
        "n0",
        &prefix(&[b"h0", b"h1"]),
        vec![
            meta_l2_at("m", b"h0", 1, 128),
            meta_l2_at("m", b"h1", 2, 0),
        ],
    )
    .unwrap();
    let moves = auth
        .plan_defrag("m", "", PoolKind::Target.number(), DefragMode::Colocate, slot)
        .unwrap();
    assert!(
        !moves.is_empty(),
        "should still find a free pack target; got empty"
    );
    for m in &moves {
        assert!(
            !(m.to_segment == 1 && m.to_offset == 0),
            "must not target foreign-occupied seg1/0; got {moves:?}"
        );
    }
    let (x_seg, x_off) = l2_offset(&auth, "m", b"x");
    for m in &moves {
        assert!(
            !(m.to_segment == x_seg && m.to_offset == x_off),
            "move onto foreign slot; {m:?}"
        );
    }
}

#[test]
fn p49_shard_membership_get_map() {
    let mut auth = Authority::default();
    auth.join_shard_node("n0", 16).unwrap();
    auth.join_shard_node("n1", 16).unwrap();
    let map = auth.shard_map();
    assert_eq!(map.nodes.len(), 2);
    assert!(map.generation >= 2);
    assert!(auth.shard_owner(b"any-key").is_some());
}

#[test]
fn p49_expand_minimal_migration() {
    let mut auth = Authority::default();
    ensure_model(&mut auth, "m");
    auth.join_shard_node("n0", 32).unwrap();
    auth.join_shard_node("n1", 32).unwrap();
    for i in 0..80u32 {
        let h = format!("b{i:03}").into_bytes();
        auth.register("n0", &prefix(&[&h]), vec![meta("m", &h)])
            .unwrap();
    }
    let (_map, migs) = auth.join_shard_node("n2", 32).unwrap();
    assert!(
        !migs.is_empty() && migs.len() < 80,
        "expand should move a subset, got {}",
        migs.len()
    );
    assert!(migs.iter().all(|m| m.to_node == "n2"));
    assert!(migs
        .iter()
        .all(|m| m.from_node == "n0" || m.from_node == "n1"));
    assert!(migs.iter().all(|m| !m.push_l2_first));
}

#[test]
fn p7_report_hits_feeds_warmup_plan() {
    let mut auth = Authority::default();
    ensure_model(&mut auth, "m");
    let full = prefix(&[b"hot", b"cold"]);
    auth.register("n0", &full, vec![meta("m", b"hot"), meta("m", b"cold")])
        .unwrap();
    auth.report_hits(
        "router-0",
        &[
            id_of(b"hot"),
            id_of(b"hot"),
            id_of(b"hot"),
            id_of(b"cold"),
            id_of(b"ghost"),
        ],
    );
    let key = NamespaceKey::new("m", "");
    assert_eq!(auth.hit_count(&key, PoolKind::Target.number(), b"hot"), 3);
    assert_eq!(auth.hit_count(&key, PoolKind::Target.number(), b"cold"), 1);
    assert_eq!(auth.hit_count(&key, PoolKind::Target.number(), b"ghost"), 0);

    let plan = auth.warmup_plan("n1", 10);
    assert_eq!(plan.len(), 2);
    assert_eq!(plan[0].block_hash, b"hot".to_vec());

    auth.publish_location(
        "m",
        "",
        PoolKind::Target.number(),
        b"hot",
        Tier::L0,
        "n0",
        true,
    )
    .unwrap();
    let plan0 = auth.warmup_plan("n0", 10);
    assert_eq!(plan0.len(), 1);
    assert_eq!(plan0[0].block_hash, b"cold".to_vec());
}

#[test]
fn p76_follow_traffic_threshold_and_hysteresis() {
    let mut auth = Authority::default();
    ensure_model(&mut auth, "m");
    let full = prefix(&[b"solo"]);
    auth.register("n0", &full, vec![meta("m", b"solo")])
        .unwrap();
    let key = NamespaceKey::new("m", "");

    let plans = auth.report_hits("n5", &[id_of(b"solo")]);
    assert!(plans.is_empty());
    assert_eq!(
        auth.hit_count_on(&key, PoolKind::Target.number(), b"solo", "n5"),
        1
    );

    let plans = auth.report_hits("n5", &[id_of(b"solo")]);
    assert_eq!(plans.len(), 1);
    assert_eq!(plans[0].0, "n5");
    assert_eq!(plans[0].1.len(), 1);
    assert_eq!(plans[0].1[0].block_hash, b"solo".to_vec());

    let plans = auth.report_hits("n5", &[id_of(b"solo")]);
    assert!(plans.is_empty());
    assert_eq!(
        auth.hit_count_on(&key, PoolKind::Target.number(), b"solo", "n5"),
        3
    );

    let plans = auth.report_hits("n7", &[id_of(b"solo")]);
    assert!(plans.is_empty());
    let plans = auth.report_hits("n7", &[id_of(b"solo")]);
    assert_eq!(plans.len(), 1);
    assert_eq!(plans[0].0, "n7");
    assert_eq!(auth.hit_count(&key, PoolKind::Target.number(), b"solo"), 5);
}

#[test]
fn p76_follow_traffic_colocates_ancestors() {
    let mut auth = Authority::default();
    ensure_model(&mut auth, "m");
    let full = prefix(&[b"a", b"b", b"c"]);
    auth.register(
        "n0",
        &full,
        vec![meta("m", b"a"), meta("m", b"b"), meta("m", b"c")],
    )
    .unwrap();
    auth.publish_location("m", "", PoolKind::Target.number(), b"a", Tier::L0, "n5", true)
        .unwrap();

    let plans = auth.report_hits("n5", &[id_of(b"c")]);
    assert!(plans.is_empty());
    let plans = auth.report_hits("n5", &[id_of(b"c")]);
    assert_eq!(plans.len(), 1);
    let hashes: Vec<Vec<u8>> = plans[0].1.iter().map(|i| i.block_hash.clone()).collect();
    assert_eq!(
        hashes,
        vec![b"b".to_vec(), b"c".to_vec()]
    );
}

#[test]
fn p76_follow_traffic_skips_already_l0() {
    let mut auth = Authority::default();
    ensure_model(&mut auth, "m");
    let full = prefix(&[b"solo"]);
    auth.register("n0", &full, vec![meta("m", b"solo")])
        .unwrap();
    auth.publish_location(
        "m",
        "",
        PoolKind::Target.number(),
        b"solo",
        Tier::L0,
        "n5",
        true,
    )
    .unwrap();
    let id = KvBlockId {
        model_id: "m".into(),
        block_hash: b"solo".to_vec(),
        pool_kind: PoolKind::Target.number(),
        scope: "public".into(),
        revision: String::new(),
    };
    for _ in 0..3 {
        let plans = auth.report_hits("n5", std::slice::from_ref(&id));
        assert!(plans.is_empty());
    }
    let key = NamespaceKey::new("m", "");
    assert_eq!(
        auth.hit_count_on(&key, PoolKind::Target.number(), b"solo", "n5"),
        3
    );
}

#[test]
fn p76_preplace_on_register_hrw_home() {
    let mut auth = Authority::default();
    ensure_model(&mut auth, "m");
    let full = prefix(&[b"a", b"b"]);
    let pk = PoolKind::Target.number();

    assert!(auth.preplace_on_register("m", "", pk, &full).is_none());

    auth.register("n0", &full, vec![meta("m", b"a"), meta("m", b"b")])
        .unwrap();
    auth.join_shard_node("n0", 16).unwrap();
    let (home, plan) = auth.preplace_on_register("m", "", pk, &full).unwrap();
    assert_eq!(home, "n0");
    let hashes: Vec<Vec<u8>> = plan.iter().map(|i| i.block_hash.clone()).collect();
    assert_eq!(hashes, vec![b"a".to_vec(), b"b".to_vec()]);

    assert!(auth.preplace_on_register("m", "", pk, &full).is_none());

    let full2 = prefix(&[b"x"]);
    let mut meta_x = meta("m", b"x");
    meta_x.locations.push(Location {
        tier: Tier::L0.number(),
        node_id: "n0".into(),
        segment_id: 1,
        offset: 0,
    });
    auth.register("n0", &full2, vec![meta_x]).unwrap();
    assert!(auth.preplace_on_register("m", "", pk, &full2).is_none());
}

#[test]
fn p49_drain_push_l2_and_remove() {
    let mut auth = Authority::default();
    ensure_model(&mut auth, "m");
    auth.join_shard_node("n0", 32).unwrap();
    auth.join_shard_node("n1", 32).unwrap();
    for i in 0..20u32 {
        let h = format!("d{i:02}").into_bytes();
        let mut m = meta("m", &h);
        m.locations[0].node_id = "n1".into();
        auth.register("n1", &prefix(&[&h]), vec![m]).unwrap();
    }
    let (map, migs, push) = auth.drain_shard_node("n1").unwrap();
    assert!(map.nodes.iter().any(|n| n.node_id == "n1" && n.draining));
    assert!(!push.is_empty(), "Drain must list L2 push candidates");
    assert!(migs.iter().all(|m| m.from_node == "n1" && m.push_l2_first));
    for id in &push {
        assert_ne!(auth.shard_owner(&id.block_hash).as_deref(), Some("n1"));
    }
    let err = auth.remove_shard_node("n1").unwrap_err();
    assert!(
        err.contains("placement"),
        "expected placement gate, got {err}"
    );
    for id in &push {
        auth.publish_location(
            &id.model_id,
            &id.revision,
            id.pool_kind,
            &id.block_hash,
            Tier::L2,
            "n1",
            false,
        )
        .unwrap();
    }
    auth.remove_shard_node("n1").unwrap();
    let map2 = auth.shard_map();
    assert!(!map2.nodes.iter().any(|n| n.node_id == "n1"));
}

#[test]
fn p49_remove_refuses_while_l2_present() {
    let mut auth = Authority::default();
    ensure_model(&mut auth, "m");
    auth.join_shard_node("n0", 16).unwrap();
    auth.join_shard_node("n1", 16).unwrap();
    let mut m = meta("m", b"stuck");
    m.locations[0].node_id = "n1".into();
    auth.register("n1", &prefix(&[b"stuck"]), vec![m]).unwrap();
    auth.drain_shard_node("n1").unwrap();
    assert!(auth
        .remove_shard_node("n1")
        .unwrap_err()
        .contains("placement"));
    assert!(auth
        .shard_map()
        .nodes
        .iter()
        .any(|n| n.node_id == "n1" && n.draining));
}

#[test]
fn p49_drain_keeps_pool_kind_identities() {
    let mut auth = Authority::default();
    ensure_model(&mut auth, "m");
    auth.join_shard_node("n0", 16).unwrap();
    auth.join_shard_node("n1", 16).unwrap();

    let mut target = meta("m", b"same");
    target.locations[0].node_id = "n1".into();
    auth.register("n1", &prefix(&[b"same"]), vec![target])
        .unwrap();

    let mut draft = meta("m", b"same");
    draft.id.as_mut().unwrap().pool_kind = PoolKind::Draft.number();
    draft.locations[0].node_id = "n1".into();
    auth.register("n1", &prefix(&[b"same"]), vec![draft])
        .unwrap();

    let (_map, _migs, push) = auth.drain_shard_node("n1").unwrap();
    let same: Vec<_> = push
        .iter()
        .filter(|id| id.model_id == "m" && id.block_hash == b"same".to_vec())
        .map(|id| id.pool_kind)
        .collect();
    assert_eq!(
        same.len(),
        2,
        "TARGET and DRAFT with same hash must both be pushed: {push:?}"
    );
    assert!(same.contains(&(PoolKind::Target.number())));
    assert!(same.contains(&(PoolKind::Draft.number())));
}

fn id_of(h: &[u8]) -> KvBlockId {
    KvBlockId {
        model_id: "m".into(),
        block_hash: h.to_vec(),
        pool_kind: PoolKind::Target.number(),
        scope: "public".into(),
        revision: String::new(),
    }
}

#[test]
fn inactive_duplicate_insert_does_not_panic() {
    let tracker = FrequencyTracker::new();
    let mut inactive = InactiveIndex::new();
    let seq = lineage_from_prefix(&prefix(&[b"dup"]))[0];
    inactive.insert(seq, 1, &tracker);
    inactive.insert(seq, 1, &tracker);
    assert!(inactive.has(&seq));
    assert_eq!(inactive.len(), 1);
}

#[test]
fn lookup_prefix_via_shared_ref() {
    let mut auth = Authority::default();
    ensure_model(&mut auth, "m");
    let full = prefix(&[b"h0", b"h1"]);
    auth.register("n0", &full, vec![meta("m", b"h0"), meta("m", b"h1")])
        .unwrap();
    let shared: &Authority = &auth;
    let (blocks, hit, _) = shared.peek_prefix("m", "", PoolKind::Target.number(), &full, "n0");
    assert_eq!(hit, 2);
    assert_eq!(blocks.len(), 2);
}

#[test]
fn lookup_prefix_served_while_read_guard_held() {
    let mut cp = ControlPlane::default();
    ensure_model(&mut cp.authority, "m");
    let full = prefix(&[b"h0"]);
    cp.authority
        .register("n0", &full, vec![meta("m", b"h0")])
        .unwrap();
    let outer = &cp.authority;
    let (_, hit, _) =
        cp.authority
            .peek_prefix("m", "", PoolKind::Target.number(), &prefix(&[b"h0"]), "n0");
    assert_eq!(hit, 1);
    assert_eq!(outer.block_count("m", ""), 1);
}

#[test]
fn subscribe_view_snapshot_on_connect() {
    let mut cp = ControlPlane::default();
    ensure_model(&mut cp.authority, "m");
    let full = prefix(&[b"h0", b"h1"]);
    cp.authority
        .register("n0", &full, vec![meta("m", b"h0"), meta("m", b"h1")])
        .unwrap();
    cp.authority.commit_view_events();
    let (ups, _) = cp.subscribe_view(0);
    let snap = &ups[0];
    assert_eq!(snap.seq, 0, "snapshot uses reserved seq=0");
    assert_eq!(snap.events.len(), 2);
    assert!(snap
        .events
        .iter()
        .all(|e| e.kind == ViewKind::Registered.number()));
    let anchor = &ups[1];
    assert_eq!(anchor.seq, 1, "anchor carries authoritative last seq");
    assert!(anchor.events.is_empty());
    assert_eq!(ups.len(), 2);
}

#[test]
fn subscribe_view_live_increment_after_register() {
    let mut cp = ControlPlane::default();
    ensure_model(&mut cp.authority, "m");
    let (ups, last) = cp.subscribe_view(0);
    assert_eq!(ups[1].seq, 0);
    let (ack, live, _) = cp.register_blocks(RegisterBlocksRequest {
        node_id: "n0".into(),
        prefix_hashes: prefix(&[b"h0"]),
        blocks: vec![meta("m", b"h0")],
    });
    assert!(ack.ok, "register_blocks failed: {}", ack.err);
    let live = live.unwrap();
    assert!(is_news(last, &live));
    assert_eq!(live.seq, 1);
    assert_eq!(live.events.len(), 1);
    assert_eq!(live.events[0].kind, ViewKind::Registered.number());
}

#[test]
fn subscribe_view_resume_replays_missed() {
    let mut cp = ControlPlane::default();
    ensure_model(&mut cp.authority, "m");
    let full = prefix(&[b"h0"]);
    let auth = &mut cp.authority;
    auth.register("n0", &full, vec![meta("m", b"h0")]).unwrap();
    auth.commit_view_events();
    let anchor = auth.view_last_seq();
    auth.publish_location(
        "m",
        "",
        PoolKind::Target.number(),
        b"h0",
        Tier::L0,
        "n0",
        true,
    )
    .unwrap();
    auth.commit_view_events();
    auth.discard_blocks(&[id_of(b"h0")]).unwrap();
    auth.commit_view_events();
    let (ups, last) = cp.subscribe_view(anchor);
    let r1 = &ups[0];
    assert_eq!(r1.seq, 2, "replay starts right after resume point");
    assert_eq!(r1.events[0].kind, ViewKind::Moved.number());
    assert_eq!(r1.events[0].locations.len(), 2);
    let r2 = &ups[1];
    assert_eq!(r2.seq, 3);
    assert_eq!(r2.events[0].kind, ViewKind::Invalidated.number());
    assert_eq!(ups.len(), 2);
    assert_eq!(last, 3);
    assert!(!is_news(last, r2));
}

#[test]
fn subscribe_view_resume_too_old_falls_back_to_snapshot() {
    let mut cp = ControlPlane::default();
    cp.authority.view_log = ViewLog::with_cap(2);
    ensure_model(&mut cp.authority, "m");
    for i in 0..4u8 {
        let h = vec![b'a' + i];
        cp.authority
            .register("n0", &prefix(&[h.as_slice()]), vec![meta("m", &h)])
            .unwrap();
        cp.authority.commit_view_events();
    }
    let (ups, _) = cp.subscribe_view(1);
    assert_eq!(ups[0].seq, 0);
    assert_eq!(ups[0].events.len(), 4);
    assert_eq!(ups[1].seq, 4);
}

#[test]
fn register_model_idempotent_keeps_blocks() {
    let mut auth = Authority::default();
    ensure_model(&mut auth, "m");
    let full = prefix(&[b"keep"]);
    auth.register("n0", &full, vec![meta("m", b"keep")])
        .unwrap();
    // Same identity with another quota.
    auth.register_model(ModelDescriptor {
        model_id: "m".into(),
        revision: String::new(),
        num_layers: 32,
        block_spec: Some(BlockSpec {
            block_tokens: 128,
            bytes_per_block: 0,
        }),
        hash_algo: HashAlgo::HashSha256256.number(),
        quota: Some(Quota {
            soft_bytes: 1,
            hard_bytes: 2,
            borrow_enabled: true,
        }),
    })
    .unwrap();
    let (_, hit, _) = auth.lookup_prefix("m", "", PoolKind::Target.number(), &full, "n0");
    assert_eq!(hit, 1);
    let q = auth
        .model_descriptor("m", "")
        .and_then(|d| d.quota.clone())
        .unwrap();
    assert_eq!(q.soft_bytes, 1);
    assert_eq!(q.hard_bytes, 2);
    assert!(q.borrow_enabled);
}

#[test]
fn p47_orphan_ttl_discard() {
    let mut auth = Authority::default();
    auth.set_now_ms(1_000);
    ensure_model(&mut auth, "m");
    auth.report_orphans(&[OrphanReport {
        node_id: "n0".into(),
        ids: vec![id_of(b"zombie")],
        marked_at_ms: 1_000,
    }])
    .unwrap();

    let early = auth.sweep_orphans(30_000);
    assert!(early.is_empty());

    auth.set_now_ms(1_000 + 30_000);
    let gone = auth.sweep_orphans(30_000);
    assert_eq!(gone.len(), 1);
    assert_eq!(gone[0].block_hash, b"zombie");
}

#[test]
fn p47_orphan_cleared_on_register() {
    let mut auth = Authority::default();
    auth.set_now_ms(1_000);
    ensure_model(&mut auth, "m");
    auth.report_orphans(&[OrphanReport {
        node_id: "n0".into(),
        ids: vec![id_of(b"late")],
        marked_at_ms: 1_000,
    }])
    .unwrap();

    let full = prefix(&[b"late"]);
    auth.register("n0", &full, vec![meta("m", b"late")])
        .unwrap();

    auth.set_now_ms(1_000 + 30_000);
    let gone = auth.sweep_orphans(30_000);
    assert!(
        gone.is_empty(),
        "registered block must not be discarded by stale orphan TTL"
    );
    let (_, hit, _) = auth.lookup_prefix("m", "", PoolKind::Target.number(), &full, "n0");
    assert_eq!(hit, 1);
}

#[test]
fn p48_relocate_and_pause_flag() {
    let mut auth = Authority::default();
    ensure_model(&mut auth, "m");
    auth.register("n0", &prefix(&[b"p"]), vec![meta("m", b"p")])
        .unwrap();
    auth.relocate_in_view(
        "m",
        "",
        PoolKind::Target.number(),
        b"p",
        Tier::L2,
        "n0",
        7,
        128,
    )
    .unwrap();
    assert_eq!(l2_offset(&auth, "m", b"p"), (7, 128));

    let mut cp = ControlPlane::new();
    assert!(!cp.background_paused());
    cp.set_background_paused(true);
    assert!(cp.background_paused());
    cp.set_background_paused(false);
    assert!(!cp.background_paused());
}

#[test]
fn p76_report_hits_handler_follow_traffic_warm() {
    let mut cp = ControlPlane::default();
    ensure_model(&mut cp.authority, "m");
    let full = prefix(&[b"a", b"c"]);
    cp.authority
        .register("n0", &full, vec![meta("m", b"a"), meta("m", b"c")])
        .unwrap();
    let mut calls: Vec<(String, Vec<Vec<u8>>)> = Vec::new();
    for _ in 0..2 {
        for (target, ids) in cp.authority.report_hits("n5", &[id_of(b"c")]) {
            calls.push((target, ids.into_iter().map(|i| i.block_hash).collect()));
        }
    }
    assert_eq!(calls.len(), 1);
    assert_eq!(calls[0].0, "n5");
    assert_eq!(calls[0].1, vec![b"a".to_vec(), b"c".to_vec()]);
    for _ in 0..2 {
        for (target, ids) in cp.authority.report_hits("n5", &[id_of(b"c")]) {
            calls.push((target, ids.into_iter().map(|i| i.block_hash).collect()));
        }
    }
    assert_eq!(calls.len(), 1);
}

#[test]
fn p76_register_handler_hrw_preplace() {
    let mut cp = ControlPlane::default();
    ensure_model(&mut cp.authority, "m");
    cp.authority.join_shard_node("n0", 16).unwrap();
    let (ack, _, plan) = cp.register_blocks(RegisterBlocksRequest {
        node_id: "n0".into(),
        prefix_hashes: prefix(&[b"a", b"b"]),
        blocks: vec![meta("m", b"a"), meta("m", b"b")],
    });
    assert!(ack.ok, "register: {}", ack.err);
    let (home, ids) = plan.unwrap();
    assert_eq!(home, "n0");
    let hashes: Vec<Vec<u8>> = ids.into_iter().map(|i| i.block_hash).collect();
    assert_eq!(hashes, vec![b"a".to_vec(), b"b".to_vec()]);
}

#[test]
fn p7_join_triggers_pool_side_warmup() {
    let mut cp = ControlPlane::default();
    ensure_model(&mut cp.authority, "m");
    let full = prefix(&[b"hot"]);
    cp.authority
        .register("n0", &full, vec![meta("m", b"hot")])
        .unwrap();
    let ordered = cp.authority.report_hits("router-0", &[id_of(b"hot")]);
    assert!(ordered.is_empty());
    let (map, _, warm) = cp.join_shard_node("n1", 16).unwrap();
    assert_eq!(map.nodes[0].node_id, "n1");
    let hashes: Vec<Vec<u8>> = warm.into_iter().map(|i| i.block_hash).collect();
    assert_eq!(hashes, vec![b"hot".to_vec()]);
}

#[test]
fn memory_roundtrip() {
    let mut store = MemoryCheckpointStore::new();
    assert!(store.load().unwrap().is_none());
    let snap = CheckpointSnapshot {
        seq: 7,
        models: vec![ModelDescriptor {
            model_id: "m".into(),
            ..Default::default()
        }],
        blocks: Vec::new(),
    };
    store.save(snap.clone()).unwrap();
    let got = store.load().unwrap().unwrap();
    assert_eq!(got.seq, 7);
    assert_eq!(got.models[0].model_id, "m");
}

#[test]
fn lineage_positions_monotonic() {
    let flats = vec![b"h0".to_vec(), b"h1".to_vec(), b"h2".to_vec()];
    let chain = lineage_from_prefix(&flats);
    assert_eq!(chain.len(), 3);
    assert_eq!(chain[0].position, 0);
    assert_eq!(chain[1].position, 1);
    assert_eq!(chain[2].position, 2);
}

#[test]
fn same_flat_same_block_hash() {
    assert_eq!(flat_to_block_hash(b"abc"), flat_to_block_hash(b"abc"));
    assert_ne!(flat_to_block_hash(b"abc"), flat_to_block_hash(b"abd"));
}
