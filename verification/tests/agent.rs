//! Behaviour of an agent that writes blocks.

use kvlake::agent::events::{apply_location_events, enqueue_defrag_moves, sync_background_pause};
use kvlake::agent::node::Agent;
use kvlake::agent::port::{AuthorityPort, ControlPlanePort, PortCall, Words};
use kvlake::agent::putend::PutEndSession;
use kvlake::control::admission::RegisterStatus;
use kvlake::control::authority::Authority;
use kvlake::kv_pool::KvPool;
use kvlake::proto::{
    BackpressureSignal, BlockKind, BlockMeta, BlockSpec, DefragMode, DispatchRequest,
    GetBlocksRequest, HashAlgo, KvBlockId, LoadReport, Location, ModelDescriptor, OpaqueBlock,
    PoolKind, PutBlocksRequest, Quota, RefDelta, RefKind, RegisterBlocksRequest,
    RequestBarrierRequest, Tier,
};
use kvlake::tier::bandwidth::BandwidthPool;
use kvlake::tier::engine::{LocalTier, LocalTierEngine, TierCaps};
use kvlake::tier::pipeline::{PipelineAction, TierPipeline};
use kvlake::tier::segment::SegmentArena;

fn ensure_model(auth: &mut Authority, model: &str) {
    auth.register_model(ModelDescriptor {
        model_id: model.into(),
        revision: String::new(),
        num_layers: 1,
        block_spec: Some(BlockSpec {
            block_tokens: 128,
            bytes_per_block: 0,
        }),
        hash_algo: HashAlgo::HashSha256256.number(),
        quota: None,
    })
    .unwrap();
}

fn ensure_model_quota(auth: &mut Authority, model: &str, soft: i64, hard: i64, bpb: u64) {
    auth.register_model(ModelDescriptor {
        model_id: model.into(),
        revision: String::new(),
        num_layers: 1,
        block_spec: Some(BlockSpec {
            block_tokens: 128,
            bytes_per_block: bpb,
        }),
        hash_algo: HashAlgo::HashSha256256.number(),
        quota: Some(Quota {
            soft_bytes: soft,
            hard_bytes: hard,
            borrow_enabled: false,
        }),
    })
    .unwrap();
}

#[test]
fn hard_quota_preflight_skips_durable_write() {
    let mut store = LocalTierEngine::with_caps(TierCaps::default());
    let mut port = AuthorityPort::new(Authority::default());
    ensure_model_quota(&mut port.auth, "m", 100, 100, 100);
    let mut s = PutEndSession::new("r0", "n0", "m");
    s.put_start(b"a0".to_vec(), vec![1u8; 100]);
    s.commit_through(&mut store, &mut port).unwrap();
    assert!(store.is_settled(b"a0"));
    port.auth.report_ref(&RefDelta {
        id: Some(KvBlockId {
            model_id: "m".into(),
            block_hash: b"a0".to_vec(),
            pool_kind: PoolKind::Target.number(),
            scope: "public".into(),
            revision: String::new(),
        }),
        kind: RefKind::Request.number(),
        delta: 1,
        node_id: "n0".into(),
    })
    .unwrap();

    let mut sess = PutEndSession::new("r1", "n0", "m");
    sess.put_start(b"a1".to_vec(), vec![2u8; 100]);
    let err = sess.commit_through(&mut store, &mut port).unwrap_err();
    assert!(
        err.contains("hard quota") || err.contains("AdmitRegister"),
        "got {err}"
    );
    assert!(
        !store.is_settled(b"a1"),
        "rejected write must not leave durable bytes"
    );
    assert!(!sess.all_durable());
}

#[test]
fn register_failure_discards_durable_bytes() {
    struct FailRegister {
        auth: Authority,
    }
    impl ControlPlanePort for FailRegister {
        type State = ();

        fn state(&self) {}

        fn answer(_: (), _: PortCall) -> ((), Result<(), Words>) {
            unreachable!()
        }

        fn ready(&self) -> bool {
            true
        }

        fn admit_register_blocks(&mut self, req: &RegisterBlocksRequest) -> Result<(), String> {
            let hashes: Vec<Vec<u8>> = req
                .blocks
                .iter()
                .filter_map(|m| m.id.as_ref().map(|i| i.block_hash.clone()))
                .collect();
            match self.auth.preflight_register("m", "", 0, &hashes)? {
                RegisterStatus::Accepted => Ok(()),
                RegisterStatus::RejectedHardQuota(bp) => {
                    Err(format!("admit hard {}", bp.deficit_bytes))
                }
            }
        }
        fn register_blocks(&mut self, _req: RegisterBlocksRequest) -> Result<(), String> {
            Err("inject: register boom".into())
        }
        fn report_refs(&mut self, _: &[RefDelta]) -> Result<(), String> {
            Ok(())
        }
        fn request_barrier(&mut self, _: RequestBarrierRequest) -> Result<(), String> {
            Ok(())
        }
        fn publish_location(
            &mut self,
            _: &str,
            _: &str,
            _: i32,
            _: &[u8],
            _: Tier,
            _: &str,
            _: bool,
        ) -> Result<(), String> {
            Ok(())
        }
        fn set_l3_present(
            &mut self,
            _: &str,
            _: &str,
            _: i32,
            _: &[u8],
            _: bool,
        ) -> Result<(), String> {
            Ok(())
        }
        fn relocate_in_view(
            &mut self,
            _: &str,
            _: &str,
            _: i32,
            _: &[u8],
            _: Tier,
            _: &str,
            _: u64,
            _: u64,
        ) -> Result<(), String> {
            Ok(())
        }
    }

    let mut store = LocalTierEngine::with_caps(TierCaps::default());
    let mut auth = Authority::default();
    ensure_model(&mut auth, "m");
    let mut port = FailRegister { auth };
    let mut sess = PutEndSession::new("r-fail", "n0", "m");
    sess.put_start(b"z".to_vec(), b"Z".to_vec());
    let err = sess.commit_through(&mut store, &mut port).unwrap_err();
    assert!(err.contains("register boom"));
    assert!(!store.is_settled(b"z"));
    assert!(!sess.all_durable());
}

#[test]
fn commit_through_l2_only_no_l3() {
    let mut store = LocalTierEngine::with_caps(TierCaps::default());
    let mut port = AuthorityPort::new(Authority::default());
    ensure_model(&mut port.auth, "m");
    let mut sess = PutEndSession::new("r1", "n0", "m");
    sess.put_start(b"h0".to_vec(), b"KV:h0".to_vec());

    sess.commit_through(&mut store, &mut port).unwrap();
    assert!(store.is_l2_durable(b"h0"));
    assert!(!store.l3_present(b"h0"), "PutEnd must not write L3");
    assert!(port.auth.barrier_completed("r1"));
    let d = RefDelta {
        id: Some(KvBlockId {
            model_id: "m".into(),
            block_hash: b"h0".to_vec(),
            pool_kind: PoolKind::Target.number(),
            scope: "public".into(),
            revision: String::new(),
        }),
        kind: RefKind::Request.number(),
        delta: 1,
        node_id: "n0".into(),
    };
    port.auth.report_ref(&d).unwrap();
    let mut d0 = d;
    d0.delta = -1;
    port.auth.report_ref(&d0).unwrap();
    assert_eq!(port.auth.evict_n("m", "", PoolKind::Target.number(), 1), 1);
}

#[test]
fn promote_publishes_l0() {
    let mut store = LocalTierEngine::new();
    let mut port = AuthorityPort::new(Authority::default());
    ensure_model(&mut port.auth, "m");
    let mut sess = PutEndSession::new("r2", "n0", "m");
    sess.put_start(b"p".to_vec(), b"P".to_vec());
    sess.commit_through(&mut store, &mut port).unwrap();
    store.promote_to_l0(b"p").unwrap();
    port.publish_location("m", "", PoolKind::Target.number(), b"p", Tier::L0, "n0", true)
        .unwrap();
    assert_eq!(store.local_tier(b"p"), Some(LocalTier::L0));
    assert!(port.auth.has_l0_on("m", "", PoolKind::Target.number(), b"p", "n0"));
}

#[test]
fn l2_cap_demote_syncs_l3_xor_on_cp() {
    let mut store = LocalTierEngine::with_caps(TierCaps {
        l0: 4,
        l1: 8,
        l2: 1,
    });
    let mut port = AuthorityPort::new(Authority::default());
    ensure_model(&mut port.auth, "m");
    let mut s0 = PutEndSession::new("r-a", "n0", "m");
    s0.put_start(b"x".to_vec(), b"X".to_vec());
    s0.commit_through(&mut store, &mut port).unwrap();
    assert!(store.is_l2_durable(b"x"));
    assert!(!store.l3_present(b"x"));

    let mut s1 = PutEndSession::new("r-b", "n0", "m");
    s1.put_start(b"y".to_vec(), b"Y".to_vec());
    s1.commit_through(&mut store, &mut port).unwrap();
    assert!(!store.is_l2_durable(b"x"));
    assert!(store.l3_present(b"x"));
    assert!(store.is_l2_durable(b"y"));
    assert!(!store.l3_present(b"y"));

    let meta_x = port.auth
        .lookup_prefix("m", "", PoolKind::Target.number(), &[b"x".to_vec()], "n0")
        .0
        .into_iter()
        .next()
        .and_then(|r| r.meta)
        .expect("x");
    assert!(meta_x.l3_present);
    assert!(!meta_x
        .locations
        .iter()
        .any(|l| l.tier == Tier::L2.number() && l.node_id == "n0"));
}

#[test]
fn commit_published_block_always_settled() {
    let mut store = LocalTierEngine::new();
    let mut port = AuthorityPort::new(Authority::default());
    ensure_model(&mut port.auth, "m");
    let mut sess = PutEndSession::new("r-df", "n0", "m");
    sess.put_start(b"h0".to_vec(), b"KV:h0".to_vec());
    sess.commit_through(&mut store, &mut port).unwrap();
    let (metas, _hit, _all) =
        port.auth.lookup_prefix("m", "", PoolKind::Target.number(), &[b"h0".to_vec()], "n0");
    let meta = metas
        .into_iter()
        .next()
        .and_then(|r| r.meta)
        .expect("block registered");
    let has_l2 = meta.locations.iter().any(|l| l.tier == Tier::L2.number());
    assert!(
        has_l2 || meta.l3_present,
        "durable-first: published block must be settled L2|L3, got {:?}",
        meta
    );
    assert!(store.is_settled(b"h0"));
}

#[test]
fn multi_block_putend_l2_cap_xor_without_pin_block() {
    let mut store = LocalTierEngine::with_caps(TierCaps {
        l0: 4,
        l1: 8,
        l2: 1,
    });
    let mut port = AuthorityPort::new(Authority::default());
    ensure_model(&mut port.auth, "m");
    let mut sess = PutEndSession::new("r-mb", "n0", "m");
    sess.put_start(b"x".to_vec(), b"X".to_vec());
    sess.put_start(b"y".to_vec(), b"Y".to_vec());
    sess.commit_through(&mut store, &mut port).unwrap();
    assert!(!store.is_l2_durable(b"x") && store.l3_present(b"x"));
    assert!(store.is_l2_durable(b"y") && !store.l3_present(b"y"));
    assert_eq!(store.l2_len(), 1);
}

#[test]
fn writeback_minus_one_after_barrier() {
    struct RecordingPort {
        auth: Authority,
        calls: Vec<&'static str>,
    }
    impl ControlPlanePort for RecordingPort {
        type State = ();

        fn state(&self) {}

        fn answer(_: (), _: PortCall) -> ((), Result<(), Words>) {
            unreachable!()
        }

        fn ready(&self) -> bool {
            true
        }

        fn admit_register_blocks(&mut self, req: &RegisterBlocksRequest) -> Result<(), String> {
            self.calls.push("admit");
            let hashes: Vec<Vec<u8>> = req
                .blocks
                .iter()
                .filter_map(|m| m.id.as_ref().map(|i| i.block_hash.clone()))
                .collect();
            let model = req
                .blocks
                .iter()
                .find_map(|m| m.id.as_ref().map(|i| i.model_id.clone()))
                .unwrap_or_default();
            let rev = req
                .blocks
                .iter()
                .find_map(|m| m.id.as_ref().map(|i| i.revision.clone()))
                .unwrap_or_default();
            let pk = req
                .blocks
                .iter()
                .find_map(|m| m.id.as_ref().map(|i| i.pool_kind))
                .unwrap_or(0);
            match self.auth.preflight_register(&model, &rev, pk, &hashes)? {
                RegisterStatus::Accepted => Ok(()),
                RegisterStatus::RejectedHardQuota(bp) => Err(format!(
                    "AdmitRegister: hard quota exceeded (deficit={})",
                    bp.deficit_bytes
                )),
            }
        }
        fn register_blocks(&mut self, req: RegisterBlocksRequest) -> Result<(), String> {
            self.calls.push("register");
            match self
                .auth
                .register(&req.node_id, &req.prefix_hashes, req.blocks)?
            {
                RegisterStatus::Accepted => Ok(()),
                RegisterStatus::RejectedHardQuota(bp) => Err(format!(
                    "RegisterBlocks: hard quota exceeded (deficit={})",
                    bp.deficit_bytes
                )),
            }
        }
        fn report_refs(&mut self, deltas: &[RefDelta]) -> Result<(), String> {
            let tag = if deltas.first().map(|d| d.delta >= 0).unwrap_or(true) {
                "wb+1"
            } else {
                "wb-1"
            };
            self.calls.push(tag);
            self.auth.report_refs(deltas)
        }
        fn request_barrier(&mut self, req: RequestBarrierRequest) -> Result<(), String> {
            self.calls.push("barrier");
            self.auth.complete_barrier(&req.request_id, &req.node_id)
        }
        fn publish_location(
            &mut self,
            model_id: &str,
            revision: &str,
            pool_kind: i32,
            flat: &[u8],
            tier: Tier,
            node_id: &str,
            present: bool,
        ) -> Result<(), String> {
            self.calls.push("publish");
            self.auth
                .publish_location(model_id, revision, pool_kind, flat, tier, node_id, present)
        }
        fn set_l3_present(
            &mut self,
            model_id: &str,
            revision: &str,
            pool_kind: i32,
            flat: &[u8],
            present: bool,
        ) -> Result<(), String> {
            self.calls.push("l3");
            self.auth
                .set_l3_present(model_id, revision, pool_kind, flat, present)
        }
        fn relocate_in_view(
            &mut self,
            model_id: &str,
            revision: &str,
            pool_kind: i32,
            flat: &[u8],
            tier: Tier,
            node_id: &str,
            segment_id: u64,
            offset: u64,
        ) -> Result<(), String> {
            self.calls.push("relocate");
            self.auth.relocate_in_view(
                model_id, revision, pool_kind, flat, tier, node_id, segment_id, offset,
            )
        }
    }

    let mut store = LocalTierEngine::new();
    let mut auth = Authority::default();
    ensure_model(&mut auth, "m");
    let mut port = RecordingPort {
        auth,
        calls: Vec::new(),
    };
    let mut sess = PutEndSession::new("r-m1b", "n0", "m");
    sess.put_start(b"h0".to_vec(), b"KV:h0".to_vec());
    sess.commit_through(&mut store, &mut port).unwrap();

    let barrier_idx = port
        .calls
        .iter()
        .rposition(|c| *c == "barrier")
        .expect("barrier called");
    let minus_idx = port
        .calls
        .iter()
        .rposition(|c| *c == "wb-1")
        .expect("WRITEBACK -1 called");
    assert!(
        barrier_idx < minus_idx,
        "WRITEBACK -1 must come after the barrier, got {:?}",
        port.calls
    );
}

#[test]
fn barrier_error_surfaces_writeback_rollback_failure() {
    struct FailingRollbackPort {
        auth: Authority,
    }
    impl ControlPlanePort for FailingRollbackPort {
        type State = ();

        fn state(&self) {}

        fn answer(_: (), _: PortCall) -> ((), Result<(), Words>) {
            unreachable!()
        }

        fn ready(&self) -> bool {
            true
        }

        fn admit_register_blocks(
            &mut self,
            _req: &RegisterBlocksRequest,
        ) -> Result<(), String> {
            Ok(())
        }

        fn register_blocks(&mut self, req: RegisterBlocksRequest) -> Result<(), String> {
            self.auth
                .register(&req.node_id, &req.prefix_hashes, req.blocks)
                .map(|_| ())
        }
        fn report_refs(&mut self, deltas: &[RefDelta]) -> Result<(), String> {
            if deltas.iter().any(|d| d.delta < 0) {
                return Err("rollback unavailable".into());
            }
            self.auth.report_refs(deltas)
        }
        fn request_barrier(&mut self, _req: RequestBarrierRequest) -> Result<(), String> {
            Err("barrier unavailable".into())
        }
        fn publish_location(
            &mut self,
            model_id: &str,
            revision: &str,
            pool_kind: i32,
            flat: &[u8],
            tier: Tier,
            node_id: &str,
            present: bool,
        ) -> Result<(), String> {
            self.auth
                .publish_location(model_id, revision, pool_kind, flat, tier, node_id, present)
        }
        fn set_l3_present(
            &mut self,
            model_id: &str,
            revision: &str,
            pool_kind: i32,
            flat: &[u8],
            present: bool,
        ) -> Result<(), String> {
            self.auth
                .set_l3_present(model_id, revision, pool_kind, flat, present)
        }
        fn relocate_in_view(
            &mut self,
            model_id: &str,
            revision: &str,
            pool_kind: i32,
            flat: &[u8],
            tier: Tier,
            node_id: &str,
            segment_id: u64,
            offset: u64,
        ) -> Result<(), String> {
            self.auth.relocate_in_view(
                model_id, revision, pool_kind, flat, tier, node_id, segment_id, offset,
            )
        }
    }

    let mut store = LocalTierEngine::new();
    let mut port = FailingRollbackPort {
        auth: Authority::default(),
    };
    ensure_model(&mut port.auth, "m");
    let mut sess = PutEndSession::new("r-rollback", "n0", "m");
    sess.put_start(b"h0".to_vec(), b"KV:h0".to_vec());
    let err = sess.commit_through(&mut store, &mut port).unwrap_err();
    assert!(err.contains("barrier unavailable"));
    assert!(err.contains("writeback rollback failed"));
    assert_eq!(
        port.auth
            .global_ref("m", "", PoolKind::Target.number(), b"h0"),
        1
    );
    assert!(sess.writeback_open);
}

#[test]
fn pipeline_tick_apply_drops_victim_l0_on_cp() {
    let mut store = LocalTierEngine::with_caps(TierCaps {
        l0: 1,
        l1: 8,
        l2: 8,
    });
    let mut port = AuthorityPort::new(Authority::default());
    ensure_model(&mut port.auth, "m");
    for (id, h, bytes) in [("r-a", b"a", b"A"), ("r-b", b"b", b"B")] {
        let mut s = PutEndSession::new(id, "n0", "m");
        s.put_start(h.to_vec(), bytes.to_vec());
        s.commit_through(&mut store, &mut port).unwrap();
    }
    let mut pipe = TierPipeline::new(store, BandwidthPool::new(1 << 20));
    pipe.enqueue(PipelineAction::Promote {
        hash: b"a".to_vec(),
    });
    let (n, ev) = pipe.tick(1);
    assert_eq!(n, 1);
    apply_location_events(&mut port, "m", "", PoolKind::Target.number(), "n0", &ev).unwrap();
    assert!(port.auth.has_l0_on("m", "", PoolKind::Target.number(), b"a", "n0"));

    pipe.enqueue(PipelineAction::Promote {
        hash: b"b".to_vec(),
    });
    let (n2, ev2) = pipe.tick(1);
    assert_eq!(n2, 1);
    apply_location_events(&mut port, "m", "", PoolKind::Target.number(), "n0", &ev2).unwrap();
    assert!(port.auth.has_l0_on("m", "", PoolKind::Target.number(), b"b", "n0"));
    assert!(!port.auth.has_l0_on("m", "", PoolKind::Target.number(), b"a", "n0"));
    let (_, _, all_local_a) =
        port.auth.lookup_prefix("m", "", PoolKind::Target.number(), &[b"a".to_vec()], "n0");
    assert!(!all_local_a);
}

#[test]
fn p48_register_request_uses_arena_placement() {
    let mut store = LocalTierEngine::with_caps(TierCaps::default());
    let mut port = AuthorityPort::new(Authority::default());
    ensure_model(&mut port.auth, "m");
    let mut sess = PutEndSession::new("r-place", "n0", "m");
    sess.put_start(b"a".to_vec(), b"A".to_vec());
    sess.put_start(b"b".to_vec(), b"B".to_vec());
    for b in &mut sess.blocks {
        store.put_durable(&b.id.block_hash, &b.bytes).unwrap();
        b.durable = true;
    }
    let p_a = store.l2_placement(b"a").expect("a placed");
    let p_b = store.l2_placement(b"b").expect("b placed");
    assert_ne!(
        (p_a.segment_id, p_a.offset),
        (p_b.segment_id, p_b.offset),
        "two blocks must not share the same arena slot"
    );

    let req = sess.register_request(&store);
    assert_eq!(req.blocks.len(), 2);
    let mut coords = Vec::new();
    for m in &req.blocks {
        let loc = m
            .locations
            .iter()
            .find(|l| l.tier == Tier::L2.number())
            .expect("L2 loc");
        coords.push((
            m.id.as_ref().unwrap().block_hash.clone(),
            loc.segment_id,
            loc.offset,
        ));
    }
    coords.sort_by(|a, b| a.0.cmp(&b.0));
    assert_eq!(coords[0].1, p_a.segment_id);
    assert_eq!(coords[0].2, p_a.offset);
    assert_eq!(coords[1].1, p_b.segment_id);
    assert_eq!(coords[1].2, p_b.offset);

    let mut sess2 = PutEndSession::new("r-place2", "n0", "m");
    sess2.put_start(b"c".to_vec(), vec![1, 2, 3]);
    sess2.put_start(b"d".to_vec(), vec![4, 5, 6]);
    sess2.commit_through(&mut store, &mut port).unwrap();
    let pc = store.l2_placement(b"c").unwrap();
    let pd = store.l2_placement(b"d").unwrap();
    let metas = port.auth.locate(&[
        KvBlockId {
            model_id: "m".into(),
            block_hash: b"c".to_vec(),
            pool_kind: PoolKind::Target.number(),
            scope: "public".into(),
            revision: String::new(),
        },
        KvBlockId {
            model_id: "m".into(),
            block_hash: b"d".to_vec(),
            pool_kind: PoolKind::Target.number(),
            scope: "public".into(),
            revision: String::new(),
        },
    ]);
    let loc_c = metas[0]
        .locations
        .iter()
        .find(|l| l.tier == Tier::L2.number())
        .unwrap();
    let loc_d = metas[1]
        .locations
        .iter()
        .find(|l| l.tier == Tier::L2.number())
        .unwrap();
    assert_eq!((loc_c.segment_id, loc_c.offset), (pc.segment_id, pc.offset));
    assert_eq!((loc_d.segment_id, loc_d.offset), (pd.segment_id, pd.offset));
    assert_ne!(
        (loc_c.segment_id, loc_c.offset),
        (loc_d.segment_id, loc_d.offset)
    );
}

#[test]
fn p48_colocate_plan_tick_updates_cp() {
    let slot = 64u64;
    let arena = SegmentArena::new(slot, 8);
    let mut store = LocalTierEngine::with_caps_arena(TierCaps::default(), arena);
    store.put_durable(b"h0", b"0").unwrap();
    store.put_durable(b"h1", b"1").unwrap();
    let _ = store.l2_arena.free(b"h0");
    let _ = store.l2_arena.free(b"h1");
    store.l2_arena.place_at(b"h0", 1, 0).unwrap();
    store.l2_arena.place_at(b"h1", 2, 0).unwrap();

    let mut port = AuthorityPort::new(Authority::default());
    ensure_model(&mut port.auth, "m");
    let m0 = BlockMeta {
        id: Some(KvBlockId {
            model_id: "m".into(),
            block_hash: b"h0".to_vec(),
            pool_kind: PoolKind::Target.number(),
            scope: "public".into(),
            revision: String::new(),
        }),
        block_kind: BlockKind::TType.number(),
        locations: vec![Location {
            tier: Tier::L2.number(),
            node_id: "n0".into(),
            segment_id: 1,
            offset: 0,
        }],
        l3_present: false,
        ref_count: 1,
    };
    let mut m1 = m0.clone();
    m1.id.as_mut().unwrap().block_hash = b"h1".to_vec();
    m1.locations[0].segment_id = 2;
    m1.locations[0].offset = 0;
    port.auth.register("n0", &[b"h0".to_vec(), b"h1".to_vec()], vec![m0, m1])
        .unwrap();

    let moves = port.auth
        .plan_defrag("m", "", PoolKind::Target.number(), DefragMode::Colocate, slot)
        .unwrap();
    assert!(!moves.is_empty());

    let mut pipe = TierPipeline::new(store, BandwidthPool::new(1 << 20)).with_node_id("n0");
    sync_background_pause(&mut pipe, true);
    enqueue_defrag_moves(&mut pipe, &moves);
    let (n_paused, _) = pipe.tick(8);
    assert_eq!(n_paused, 0, "paused bandwidth must block defrag");
    sync_background_pause(&mut pipe, false);
    pipe.bandwidth.reset_window();
    let (n, ev) = pipe.tick(8);
    assert!(n >= 1);
    apply_location_events(&mut port, "m", "", PoolKind::Target.number(), "n0", &ev).unwrap();
    let metas = port.auth.locate(&[KvBlockId {
        model_id: "m".into(),
        block_hash: b"h1".to_vec(),
        pool_kind: PoolKind::Target.number(),
        scope: "public".into(),
        revision: String::new(),
    }]);
    let loc = metas[0]
        .locations
        .iter()
        .find(|l| l.tier == Tier::L2.number())
        .unwrap();
    assert_eq!(loc.segment_id, 1);
    assert_eq!(loc.offset, slot);
}

fn bp(model: &str) -> BackpressureSignal {
    BackpressureSignal {
        model_id: model.into(),
        revision: String::new(),
        used_bytes: 200,
        soft_bytes: 100,
        hard_bytes: 150,
        deficit_bytes: 50,
        reason: "HARD_QUOTA".into(),
    }
}

#[test]
fn record_then_read_backpressure() {
    let mut agent = Agent::default();
    agent.record_backpressure(bp("m1"), 7);
    let got = agent.last_backpressure(7).expect("fresh bp");
    assert_eq!(got.model_id, "m1");
    assert_eq!(got.reason, "HARD_QUOTA");
    assert_eq!(got.deficit_bytes, 50);
}

#[test]
fn report_load_acks_carry_backpressure() {
    let mut agent = Agent::default();
    let report = |q: u32| LoadReport {
        node_id: "router".into(),
        queue_len: q,
        in_flight: 1,
        remaining_cap: 0,
    };
    let ack1 = agent.report_load(&report(1), 100);
    assert!(ack1.ok);

    agent.record_backpressure(bp("m-loadsync"), 200);
    let ack2 = agent.report_load(&report(2), 300);
    assert_eq!(
        ack2.backpressure.as_ref().map(|b| b.model_id.as_str()),
        Some("m-loadsync")
    );
    assert!(agent.load_report_count() >= 2);
}

#[test]
fn backpressure_goes_stale() {
    let mut agent = Agent::default();
    assert_eq!(agent.last_backpressure(0), None);
    agent.record_backpressure(bp("m"), 1_000);
    assert!(agent.last_backpressure(1_000 + 29_999).is_some());
    assert_eq!(agent.last_backpressure(1_000 + 30_000), None);
}

#[test]
fn dispatches_are_counted() {
    let mut agent = Agent::default();
    let to = |node: &str| DispatchRequest {
        target_node_id: node.into(),
        ..Default::default()
    };
    assert!(agent.dispatch(&to("n0"), 0).unwrap().ok);
    assert_eq!(agent.dispatch_count(), 1);
    let refused = agent.dispatch(&to(""), 0).unwrap_err();
    assert_eq!(refused.message, "target_node_id required");
    assert_eq!(agent.dispatch_count(), 1);
    assert!(agent.place_blocks().ok);
}

#[test]
fn refused_write_is_noted_as_pressure() {
    let mut store = LocalTierEngine::with_caps(TierCaps::default());
    let mut port = AuthorityPort::new(Authority::default());
    ensure_model_quota(&mut port.auth, "m", 50, 50, 100);
    let mut sess = PutEndSession::with_revision("r", "n0", "m", "");
    sess.put_start(b"big".to_vec(), b"B".to_vec());
    let err = sess.commit_through(&mut store, &mut port).unwrap_err();
    assert_eq!(
        err,
        "AdmitRegister: admission rejected reason=HARD_QUOTA deficit=50"
    );
    let mut agent = Agent::default();
    agent.record_backpressure(port.pressure.clone().unwrap(), 0);
    assert_eq!(agent.last_backpressure(1).unwrap().model_id, "m");
    assert_eq!(store.local_tier(b"big"), None);
}

#[test]
fn put_blocks_missing_id_is_not_ok() {
    let mut pool = KvPool::default();
    let ack = pool.put_blocks(&PutBlocksRequest {
        node_id: "n0".into(),
        blocks: vec![OpaqueBlock {
            id: None,
            data: b"bad".to_vec(),
        }],
    });

    assert!(!ack.ok);
    assert!(ack.err.contains("skipped 1 block"));
}

#[test]
fn put_then_get_blocks_round_trip() {
    let mut pool = KvPool::default();
    let id = KvBlockId {
        model_id: "m".into(),
        revision: "r1".into(),
        pool_kind: PoolKind::Target.number(),
        block_hash: b"h0".to_vec(),
        scope: "public".into(),
    };
    let data = b"payload".to_vec();

    let ack = pool.put_blocks(&PutBlocksRequest {
        node_id: "n0".into(),
        blocks: vec![OpaqueBlock {
            id: Some(id.clone()),
            data: data.clone(),
        }],
    });
    assert!(ack.ok, "put failed: {}", ack.err);

    let resp = pool.get_blocks(&GetBlocksRequest {
        ids: vec![id.clone()],
    });
    assert_eq!(resp.blocks.len(), 1);
    assert_eq!(resp.blocks[0].id.as_ref(), Some(&id));
    assert_eq!(resp.blocks[0].data, data);
}
