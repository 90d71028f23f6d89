//! Behaviour of transfers.

use kvlake::proto::{
    FreeBatchRequest, FreePublishRequest, FreePullRequest, KvBlockId, LayerSlice, Location,
    PoolKind, PublishRequest, PullPolicy, PullRequest, Tier, TransferBatchRequest, TransferRequest,
    TransferState, TransferStatusRequest,
};
use kvlake::transfer::bytes::InMemoryByteStore;
use kvlake::transfer::error::{Code, TransferError};
use kvlake::transfer::location::validate_location_tier;
use kvlake::transfer::service::TransferServer;
use kvlake::transfer::tcp::{Batch, TcpTransport};
use kvlake::transfer::transport::{TaskState, TransferOp, Transport};

fn loc(seg: u64, off: u64, tier: Tier) -> Location {
    Location {
        tier: tier.number(),
        node_id: "n0".into(),
        segment_id: seg,
        offset: off,
    }
}

fn set_in_flight(t: &mut TcpTransport, batch: u64, in_flight: bool) {
    let b = t.batches.remove(&batch).unwrap();
    t.batches.insert(batch, Batch { in_flight, ..b });
}

#[test]
fn submit_then_status_copies_bytes() {
    let mut t = TcpTransport::new();
    let src = t.open_segment("src", 64).unwrap();
    let dst = t.open_segment("dst", 64).unwrap();
    t.write_segment(src, 0, b"hello-kv-block").unwrap();

    let batch = t.allocate_batch_id(1).unwrap();
    t.submit_transfer(
        batch,
        &[TransferOp {
            source: loc(src, 0, Tier::L2),
            target_segment_id: dst,
            target_offset: 8,
            length: 14,
        }],
    )
    .unwrap();

    let st = t.get_transfer_status(batch, 0).unwrap();
    assert_eq!(st.state, TaskState::Done);
    assert_eq!(st.bytes_done, 14);
    assert_eq!(&t.read_segment(dst, 8, 14).unwrap(), b"hello-kv-block");
    t.free_batch_id(batch).unwrap();
}

#[test]
fn reject_tier_l3_on_submit() {
    let mut t = TcpTransport::new();
    let src = t.open_segment("src", 16).unwrap();
    let dst = t.open_segment("dst", 16).unwrap();
    t.write_segment(src, 0, b"0123456789abcdef").unwrap();
    let batch = t.allocate_batch_id(1).unwrap();
    let err = t
        .submit_transfer(
            batch,
            &[TransferOp {
                source: loc(src, 0, Tier::L3),
                target_segment_id: dst,
                target_offset: 0,
                length: 8,
            }],
        )
        .unwrap_err();
    assert!(matches!(err, TransferError::InvalidTier(_)));
}

#[test]
fn failed_submit_does_not_mutate_dst() {
    let mut t = TcpTransport::new();
    let src = t.open_segment("src", 16).unwrap();
    let dst = t.open_segment("dst", 16).unwrap();
    t.write_segment(src, 0, b"PAYLOAD!!!!!!!!!").unwrap();
    t.write_segment(dst, 0, b"............XXXX").unwrap();
    let before = t.read_segment(dst, 0, 16).unwrap();

    let err = t
        .submit_transfer(
            999_999,
            &[TransferOp {
                source: loc(src, 0, Tier::L2),
                target_segment_id: dst,
                target_offset: 0,
                length: 8,
            }],
        )
        .unwrap_err();
    assert!(matches!(err, TransferError::UnknownBatch(999_999)));
    assert_eq!(t.read_segment(dst, 0, 16).unwrap(), before);

    let batch = t.allocate_batch_id(1).unwrap();
    let err = t
        .submit_transfer(
            batch,
            &[
                TransferOp {
                    source: loc(src, 0, Tier::L2),
                    target_segment_id: dst,
                    target_offset: 0,
                    length: 4,
                },
                TransferOp {
                    source: loc(src, 4, Tier::L2),
                    target_segment_id: dst,
                    target_offset: 4,
                    length: 4,
                },
            ],
        )
        .unwrap_err();
    assert!(matches!(err, TransferError::BatchFull));
    assert_eq!(t.read_segment(dst, 0, 16).unwrap(), before);
}

#[test]
fn failed_submit_after_claim_releases_batch() {
    let mut t = TcpTransport::new();
    let src = t.open_segment("src", 8).unwrap();
    let dst = t.open_segment("dst", 8).unwrap();
    t.write_segment(src, 0, b"PAYLOAD!").unwrap();
    t.write_segment(dst, 0, b"........").unwrap();
    let before = t.read_segment(dst, 0, 8).unwrap();

    let batch = t.allocate_batch_id(1).unwrap();
    let err = t
        .submit_transfer(
            batch,
            &[TransferOp {
                source: loc(src, 0, Tier::L2),
                target_segment_id: dst,
                target_offset: 4,
                length: 8,
            }],
        )
        .unwrap_err();
    assert!(matches!(err, TransferError::OutOfRange { .. }));
    assert_eq!(t.read_segment(dst, 0, 8).unwrap(), before);
    t.free_batch_id(batch).unwrap();
}

#[test]
fn free_batch_rejects_in_flight_batch() {
    let mut t = TcpTransport::new();
    let batch = t.allocate_batch_id(1).unwrap();
    set_in_flight(&mut t, batch, true);
    let err = t.free_batch_id(batch).unwrap_err();
    assert!(matches!(err, TransferError::BatchInFlight(id) if id == batch));
    assert_eq!(t.batch_count(), 1);
    set_in_flight(&mut t, batch, false);
    t.free_batch_id(batch).unwrap();
}

#[test]
fn submitted_batch_cannot_be_submitted_again() {
    let mut t = TcpTransport::new();
    let src = t.open_segment("src", 8).unwrap();
    let dst = t.open_segment("dst", 8).unwrap();
    t.write_segment(src, 0, b"AAAA").unwrap();
    t.write_segment(dst, 0, b"........").unwrap();

    let batch = t.allocate_batch_id(1).unwrap();
    t.submit_transfer(
        batch,
        &[TransferOp {
            source: loc(src, 0, Tier::L2),
            target_segment_id: dst,
            target_offset: 0,
            length: 4,
        }],
    )
    .unwrap();
    assert_eq!(&t.read_segment(dst, 0, 8).unwrap(), b"AAAA....");

    t.write_segment(src, 0, b"BBBB").unwrap();
    let err = t
        .submit_transfer(
            batch,
            &[TransferOp {
                source: loc(src, 0, Tier::L2),
                target_segment_id: dst,
                target_offset: 0,
                length: 4,
            }],
        )
        .unwrap_err();
    assert!(matches!(err, TransferError::BatchSubmitted(id) if id == batch));
    assert_eq!(&t.read_segment(dst, 0, 8).unwrap(), b"AAAA....");
    let st = t.get_transfer_status(batch, 0).unwrap();
    assert_eq!(st.state, TaskState::Done);
    assert_eq!(st.bytes_done, 4);
}

#[test]
fn accepts_l0_l1_l2() {
    validate_location_tier(&loc(1, 0, Tier::L0)).unwrap();
    validate_location_tier(&loc(1, 0, Tier::L1)).unwrap();
    validate_location_tier(&loc(1, 0, Tier::L2)).unwrap();
}

#[test]
fn rejects_l3() {
    let err = validate_location_tier(&loc(1, 0, Tier::L3)).unwrap_err();
    assert!(matches!(err, TransferError::InvalidTier(_)));
}

#[test]
fn rejects_unspecified() {
    assert!(validate_location_tier(&loc(1, 0, Tier::Unspecified)).is_err());
}

fn block(hash: &[u8]) -> KvBlockId {
    KvBlockId {
        model_id: "m".into(),
        block_hash: hash.to_vec(),
        pool_kind: PoolKind::Target.number(),
        scope: "public".into(),
        revision: String::new(),
    }
}

#[test]
fn submit_get_status_e2e() {
    let bytes = InMemoryByteStore::new();
    let mut svc = TransferServer::new(TcpTransport::new(), bytes);

    let src = svc.transport.open_segment("s", 32).unwrap();
    let dst = svc.transport.open_segment("d", 32).unwrap();
    svc.transport.write_segment(src, 0, b"abcd").unwrap();

    let ack = svc
        .submit_transfer(&TransferBatchRequest {
            reqs: vec![TransferRequest {
                source: Some(Location {
                    tier: Tier::L1.number(),
                    node_id: "n".into(),
                    segment_id: src,
                    offset: 0,
                }),
                target_segment_id: dst,
                target_offset: 4,
                length: 4,
            }],
        })
        .unwrap();

    let st = svc
        .get_transfer_status(&TransferStatusRequest {
            batch_id: ack.batch_id,
            task_id: 0,
        })
        .unwrap();
    assert_eq!(st.state, TransferState::Done.number());
    assert_eq!(st.bytes_done, 4);
    assert_eq!(&svc.transport.read_segment(dst, 4, 4).unwrap(), b"abcd");

    assert_eq!(svc.transport.batch_count(), 1);
    let freed = svc
        .free_batch(&FreeBatchRequest {
            batch_id: ack.batch_id,
        })
        .unwrap();
    assert!(freed.ok);
    assert_eq!(svc.transport.batch_count(), 0);
    let miss = svc
        .get_transfer_status(&TransferStatusRequest {
            batch_id: ack.batch_id,
            task_id: 0,
        })
        .unwrap_err();
    assert_eq!(miss.code, Code::NotFound);
}

#[test]
fn submit_rejects_tier_l3() {
    let mut svc = TransferServer::new(TcpTransport::new(), InMemoryByteStore::new());
    let src = svc.transport.open_segment("s", 8).unwrap();
    let dst = svc.transport.open_segment("d", 8).unwrap();
    let err = svc
        .submit_transfer(&TransferBatchRequest {
            reqs: vec![TransferRequest {
                source: Some(Location {
                    tier: Tier::L3.number(),
                    node_id: "n".into(),
                    segment_id: src,
                    offset: 0,
                }),
                target_segment_id: dst,
                target_offset: 0,
                length: 4,
            }],
        })
        .unwrap_err();
    assert_eq!(err.code, Code::InvalidArgument);
}

#[test]
fn pull_wait_complete_and_publish_scoped() {
    let mut bytes = InMemoryByteStore::new();
    let b0 = block(b"h0");
    let b1 = block(b"h1");
    bytes.put(&b0, b"AAA".to_vec());
    bytes.put(&b1, b"BBBB".to_vec());
    let mut svc = TransferServer::new(TcpTransport::new(), bytes);

    let segs_before = svc.transport.segment_count();
    let resp = svc
        .pull(&PullRequest {
            ids: vec![b0.clone(), b1.clone()],
            policy: PullPolicy::PullWaitComplete.number(),
            budget_ms: 0,
            requester_node_id: "node-a".into(),
        })
        .unwrap();
    assert_eq!(resp.pulled_length, 2);
    assert!(resp.completed);
    assert!(resp.handle > 0);
    assert_eq!(svc.pull_handle_count(), 1);
    assert_eq!(svc.transport.segment_count(), segs_before + 1);

    let ack = svc
        .publish(&PublishRequest {
            request_id: "req-a".into(),
            seq: 1,
            slices: vec![
                LayerSlice {
                    id: Some(b0.clone()),
                    layer_idx: 0,
                    offset: 0,
                    length: 64,
                },
                LayerSlice {
                    id: Some(b1.clone()),
                    layer_idx: 1,
                    offset: 0,
                    length: 64,
                },
            ],
        });
    assert!(ack.ok);
    assert_eq!(svc.published_layer_bytes("req-a", &b0, 0), Some(64));

    let dup = svc
        .publish(&PublishRequest {
            request_id: "req-a".into(),
            seq: 1,
            slices: vec![LayerSlice {
                id: Some(b0.clone()),
                layer_idx: 0,
                offset: 0,
                length: 64,
            }],
        });
    assert!(dup.ok);
    assert_eq!(svc.published_layer_bytes("req-a", &b0, 0), Some(64));

    svc.publish(&PublishRequest {
        request_id: "req-a".into(),
        seq: 3,
        slices: vec![],
    });
    let back = svc
        .publish(&PublishRequest {
            request_id: "req-a".into(),
            seq: 2,
            slices: vec![],
        });
    assert!(!back.ok);

    let other = svc
        .publish(&PublishRequest {
            request_id: "req-b".into(),
            seq: 1,
            slices: vec![],
        });
    assert!(other.ok);
    assert_eq!(svc.publish_stream_count(), 2);

    let freed = svc
        .free_publish(&FreePublishRequest {
            request_id: "req-a".into(),
        });
    assert!(freed.ok);
    assert_eq!(svc.publish_stream_count(), 1);
    let restart = svc
        .publish(&PublishRequest {
            request_id: "req-a".into(),
            seq: 1,
            slices: vec![],
        });
    assert!(restart.ok);

    assert!(
        svc.free_publish(&FreePublishRequest {
            request_id: "req-b".into(),
        })
        .ok
    );
    assert!(
        svc.free_publish(&FreePublishRequest {
            request_id: "req-a".into(),
        })
        .ok
    );
    assert_eq!(svc.publish_stream_count(), 0);

    let freed = svc
        .free_pull(&FreePullRequest {
            handle: resp.handle,
        });
    assert!(freed.ok);
    assert_eq!(svc.pull_handle_count(), 0);
    assert_eq!(svc.transport.segment_count(), segs_before);
    let again = svc
        .free_pull(&FreePullRequest {
            handle: resp.handle,
        });
    assert!(!again.ok);
}

#[test]
fn pull_timeout_partial() {
    let mut bytes = InMemoryByteStore::new();
    for i in 0..5u8 {
        bytes.put(&block(&[i]), vec![i; 4]);
    }
    let mut svc = TransferServer::new(TcpTransport::new(), bytes);
    let ids: Vec<_> = (0..5u8).map(|i| block(&[i])).collect();
    let segs_before = svc.transport.segment_count();
    let resp = svc
        .pull(&PullRequest {
            ids,
            policy: PullPolicy::PullTimeout.number(),
            budget_ms: 2,
            requester_node_id: "n".into(),
        })
        .unwrap();
    assert_eq!(resp.pulled_length, 2);
    assert!(!resp.completed);
    assert!(
        svc.free_pull(&FreePullRequest {
            handle: resp.handle,
        })
        .ok
    );
    assert_eq!(svc.pull_handle_count(), 0);
    assert_eq!(svc.transport.segment_count(), segs_before);
}

#[test]
fn free_pull_reclaims_handle_and_segment() {
    let mut bytes = InMemoryByteStore::new();
    bytes.put(&block(b"x"), b"ZZ".to_vec());
    let mut svc = TransferServer::new(TcpTransport::new(), bytes);
    assert_eq!(svc.transport.segment_count(), 0);
    let mut handles = Vec::new();
    for _ in 0..3 {
        let r = svc
            .pull(&PullRequest {
                ids: vec![block(b"x")],
                policy: PullPolicy::PullBestEffort.number(),
                budget_ms: 0,
                requester_node_id: "n".into(),
            })
            .unwrap();
        handles.push(r.handle);
    }
    assert_eq!(svc.pull_handle_count(), 3);
    assert_eq!(svc.transport.segment_count(), 3);
    for h in handles {
        assert!(
            svc.free_pull(&FreePullRequest { handle: h })
                .ok
        );
    }
    assert_eq!(svc.pull_handle_count(), 0);
    assert_eq!(svc.transport.segment_count(), 0);
}

#[test]
fn errors_say_what_was_wrong() {
    let mut t = TcpTransport::new();
    let a = t.open_segment("a", 8).unwrap();
    assert_eq!(t.segment_capacity(a), Ok(8));
    assert_eq!(t.segment_capacity(99), Err(TransferError::UnknownSegment(99)));
    let e = t.write_segment(a, 6, b"abc").unwrap_err();
    assert_eq!(
        e,
        TransferError::OutOfRange {
            segment_id: a,
            offset: 6,
            length: 3,
            capacity: 8,
        }
    );
    assert_eq!(e.code(), Code::FailedPrecondition);
    assert_eq!(t.free_segment(99), Err(TransferError::UnknownSegment(99)));
    assert_eq!(TransferError::UnknownSegment(99).code(), Code::NotFound);
    assert_eq!(t.free_batch_id(5), Err(TransferError::UnknownBatch(5)));
    let b = t.allocate_batch_id(1).unwrap();
    assert!(matches!(
        t.get_transfer_status(b, 1),
        Err(TransferError::UnknownTask { .. })
    ));
    assert_eq!(
        t.submit_transfer(b, &[]),
        Err(TransferError::EmptyBatch)
    );
    assert_eq!(e.message(), "segment 1 OOB offset=6 length=3 capacity=8");
    assert_eq!(
        TransferError::InvalidTier(-4).message(),
        "Location.tier=-4 rejected (hard constraint: L0/L1/L2 only; L3 uses l3_present)"
    );
    assert_eq!(TransferError::BatchInFlight(7).refusal().message, "batch_id=7 is in flight");
    assert_eq!(TransferError::BatchInFlight(7).code(), Code::FailedPrecondition);
    assert_eq!(TransferError::Other("odd".into()).refusal().code, Code::Internal);
}

#[test]
fn numbers_are_not_given_out_twice() {
    let mut t = TcpTransport::new();
    let a = t.open_segment("a", 1).unwrap();
    t.free_segment(a).unwrap();
    let b = t.open_segment("a", 1).unwrap();
    assert_ne!(a, b);
    let x = t.allocate_batch_id(1).unwrap();
    t.free_batch_id(x).unwrap();
    assert_ne!(x, t.allocate_batch_id(1).unwrap());
}

#[test]
fn bytes_are_kept_by_address() {
    let mut s = InMemoryByteStore::new();
    assert!(s.is_empty());
    s.put(&block(b"a"), b"1".to_vec());
    s.put(&block(b"a"), b"2".to_vec());
    assert_eq!(s.len(), 1);
    assert_eq!(s.get(&block(b"a")), Some(b"2".to_vec()));
    let mut private = block(b"a");
    private.scope = "private".into();
    assert_eq!(s.get(&private), Some(b"2".to_vec()));
    let mut draft = block(b"a");
    draft.pool_kind = PoolKind::Draft.number();
    assert!(!s.contains(&draft));
}

#[test]
fn pulled_bytes_stand_in_their_segment() {
    let mut bytes = InMemoryByteStore::new();
    bytes.put(&block(b"x"), b"XX".to_vec());
    bytes.put(&block(b"y"), b"YYY".to_vec());
    let mut svc = TransferServer::new(TcpTransport::new(), bytes);
    let req = PullRequest {
        ids: vec![block(b"x"), block(b"gone"), block(b"y")],
        policy: PullPolicy::PullBestEffort.number(),
        budget_ms: 0,
        requester_node_id: "n".into(),
    };
    assert_eq!(svc.pull_size(&req), 5);
    let r = svc.pull(&req).unwrap();
    assert_eq!(r.pulled_length, 2);
    assert_eq!(svc.transport().segment_count(), 1);
    assert_eq!(svc.bytes().len(), 2);
    let all = PullRequest {
        policy: PullPolicy::PullWaitComplete.number(),
        ..req
    };
    assert_eq!(svc.pull(&all).unwrap_err().code, Code::NotFound);
    assert_eq!(svc.pull_handle_count(), 1);
}

#[test]
fn batches_are_counted() {
    let mut t = TcpTransport::new();
    let seg = t.open_segment("s", 8).unwrap();
    assert!(matches!(
        t.allocate_batch_id(0),
        Err(TransferError::EmptyBatch)
    ));
    assert_eq!(t.batch_count(), 0);
    let a = t.allocate_batch_id(1).unwrap();
    let b = t.allocate_batch_id(2).unwrap();
    assert_eq!(t.batch_count(), 2);
    let op = TransferOp {
        source: loc(seg, 0, Tier::L2),
        target_segment_id: seg,
        target_offset: 4,
        length: 4,
    };
    t.submit_transfer(a, &[op.clone()]).unwrap();
    assert!(t.submit_transfer(a, &[op]).is_err());
    assert_eq!(t.batch_count(), 2);
    set_in_flight(&mut t, b, true);
    assert!(t.free_batch_id(b).is_err());
    assert!(t.free_batch_id(999).is_err());
    assert_eq!(t.batch_count(), 2);
    set_in_flight(&mut t, b, false);
    t.free_batch_id(b).unwrap();
    t.free_batch_id(a).unwrap();
    assert_eq!(t.batch_count(), 0);
}
