//! What a checkpoint brings back.

use vstd::prelude::*;

use crate::base::listing;
use crate::base::order;
use crate::control::admission;
use crate::control::admission::AdmitPlanView;
use crate::control::authority::AuthorityView;
use crate::control::blocks;
use crate::control::hash_chain;
use crate::control::laws;
use crate::control::locations;
use crate::control::mirror;
use crate::control::namespace::{BlockKeyView, NamespaceKey, NsView};
use crate::control::pool;
use crate::control::pool::{EntryView, PoolView};
use crate::control::quota;
use crate::control::register;
use crate::control::snapshot;
use crate::control::snapshot::Row;
use crate::proto::{
    BlockMetaView, CheckpointBlock, CheckpointBlockView, KvBlockIdView, PoolKind, ReusableBlockView,
};

verus! {

/// A block can be brought back: its record names it and a durable copy of it, and its
/// chain leads to it with its lineage.
pub open spec fn restorable_block(x: BlockKeyView, e: EntryView) -> bool {
    &&& e.meta.id is Some
    &&& e.meta.id->0.model_id == x.model_id
    &&& e.meta.id->0.revision == x.revision
    &&& e.meta.id->0.pool_kind == x.pool_kind
    &&& e.meta.id->0.block_hash == x.flat
    &&& e.meta.locations.len() > 0 || e.meta.l3_present
    &&& forall|i: int|
        0 <= i < e.meta.locations.len() ==> (#[trigger] e.meta.locations[i]).node_id.len() > 0
    &&& e.chain.len() > 0
    &&& e.chain.last() == x.flat
    &&& e.seq == hash_chain::lineage(e.chain)[e.chain.len() - 1]
}

/// Models and blocks can be brought back.
pub open spec fn restorable(a: AuthorityView) -> bool {
    &&& a.finite()
    &&& forall|k: (Seq<char>, Seq<char>)| #[trigger]
        a.spaces.contains_key(k) ==> {
            let d = a.spaces[k].descriptor;
            &&& (d.model_id, d.revision) == k
            &&& k.0.len() > 0
            &&& d.quota is Some ==> quota::quota_verdict(d.quota->0) is Ok
        }
    &&& forall|x: BlockKeyView| #[trigger] a.has_block(x) ==> restorable_block(x, a.block(x))
}

/// Two records of a block agree but for the number that the pool gave it.
pub open spec fn same_entry(e: EntryView, f: EntryView) -> bool {
    e.seq == f.seq && e.meta == f.meta && e.chain == f.chain
}

/// No block may make room.
spec fn idle(c: AuthorityView) -> bool {
    forall|k: (Seq<char>, Seq<char>)| #[trigger]
        c.spaces.contains_key(k) ==> {
            &&& c.spaces[k].target is Some ==> c.spaces[k].target->0.inactive.nodes.len() == 0
            &&& c.spaces[k].draft is Some ==> c.spaces[k].draft->0.inactive.nodes.len() == 0
        }
}

/// What was brought back so far is part of what was saved.
spec fn partly(a: AuthorityView, c: AuthorityView) -> bool {
    &&& idle(c)
    &&& c.spaces.dom() == a.spaces.dom()
    &&& forall|k: (Seq<char>, Seq<char>)| #[trigger]
        a.spaces.contains_key(k) ==> c.spaces[k].descriptor == a.spaces[k].descriptor
    &&& forall|x: BlockKeyView| #[trigger]
        c.has_block(x) ==> a.has_block(x) && same_entry(a.block(x), c.block(x))
}

proof fn lemma_models(a: AuthorityView, c: AuthorityView, n: int)
    requires
        restorable(a),
        0 <= n <= a.names().len(),
        c.spaces == Map::<(Seq<char>, Seq<char>), NsView>::empty(),
    ensures
        ({
            let models = a.names().map_values(
                |k: (Seq<char>, Seq<char>)| a.spaces[k].descriptor,
            );
            let (d, r) = c.models_imported(models.take(n));
            &&& r is Ok
            &&& forall|k: (Seq<char>, Seq<char>)| #[trigger]
                d.spaces.contains_key(k) == a.names().take(n).contains(k)
            &&& forall|k: (Seq<char>, Seq<char>)| #[trigger]
                d.spaces.contains_key(k) ==> d.spaces[k] == NsView::fresh(
                    a.spaces[k].descriptor,
                    c.cap,
                )
            &&& d.cap == c.cap
            &&& d.checkpoint_seq == c.checkpoint_seq
        }),
    decreases n,
{
    let names = a.names();
    let models = names.map_values(|k: (Seq<char>, Seq<char>)| a.spaces[k].descriptor);
    listing::listing_lists::<NamespaceKey>(a.spaces.dom());
    if n == 0 {
        assert(models.take(0) =~= Seq::empty());
        assert(names.take(0) =~= Seq::empty());
    } else {
        lemma_models(a, c, n - 1);
        assert(models.take(n).drop_last() =~= models.take(n - 1));
        let k = names[n - 1];
        assert(names.to_set().contains(k));
        assert(a.spaces.contains_key(k));
        let d0 = c.models_imported(models.take(n - 1)).0;
        assert(!names.take(n - 1).contains(k)) by {
            let front = names.take(n - 1);
            if front.contains(k) {
                let j = choose|j: int| 0 <= j < front.len() && front[j] == k;
                assert(names[j] == names[n - 1]);
            }
        }
        assert(!d0.spaces.contains_key(k));
        let d = c.models_imported(models.take(n)).0;
        assert(models.take(n).last() == a.spaces[k].descriptor);
        assert forall|j: (Seq<char>, Seq<char>)| #[trigger] d.spaces.contains_key(j)
            == names.take(n).contains(j) by {
            let front = names.take(n - 1);
            let more = names.take(n);
            assert(d0.spaces.contains_key(j) == front.contains(j));
            if front.contains(j) {
                let i = choose|i: int| 0 <= i < front.len() && front[i] == j;
                assert(more[i] == j);
            }
            if more.contains(j) && j != k {
                let i = choose|i: int| 0 <= i < more.len() && more[i] == j;
                assert(front[i] == j);
            }
            if j == k {
                assert(more[n - 1] == k);
            }
        }
    }
}

/// Where nothing may make room, nothing can be given back.
proof fn lemma_nothing_reclaimable(
    c: AuthorityView,
    except: (Seq<char>, Seq<char>),
    names: Seq<(Seq<char>, Seq<char>)>,
)
    requires
        idle(c),
        forall|i: int| 0 <= i < names.len() ==> c.spaces.contains_key(#[trigger] names[i]),
    ensures
        admission::reclaimable(c.spaces, except, names) == 0,
    decreases names.len(),
{
    if names.len() > 0 {
        let rest = names.drop_last();
        assert forall|i: int| 0 <= i < rest.len() implies c.spaces.contains_key(
            #[trigger] rest[i],
        ) by {
            assert(rest[i] == names[i]);
        }
        lemma_nothing_reclaimable(c, except, rest);
        assert(c.spaces.contains_key(names[names.len() - 1]));
        let ns = c.spaces[names.last()];
        assert(ns.inactive_len() == 0);
        assert(quota::clamped(quota::clamped(0) * ns.block_bytes()) == 0) by {
            assert(0 * ns.block_bytes() == 0) by (nonlinear_arith);
        }
    }
}

/// Where nothing may make room, whatever is let in is let in without any.
proof fn lemma_idle_plan(c: AuthorityView, k: (Seq<char>, Seq<char>), n: nat)
    requires
        idle(c),
        c.spaces.contains_key(k),
        c.spaces.dom().finite(),
    ensures
        c.plan(k, n) is Ok,
        c.admitted(k, c.plan(k, n)->Ok_0) == c,
{
    let plan = c.plan(k, n)->Ok_0;
    let ns = c.spaces[k];
    if n > 0 {
        listing::listing_lists::<NamespaceKey>(c.spaces.dom());
        let names = c.names();
        assert forall|i: int| 0 <= i < names.len() implies c.spaces.contains_key(
            #[trigger] names[i],
        ) by {
            assert(names.to_set().contains(names[i]));
        }
        lemma_nothing_reclaimable(c, k, names);
        assert(ns.inactive_len() == 0);
        match plan {
            AdmitPlanView::Accept { own, reclaim } => {
                lemma_blocks_for_positive();
                assert(own == 0);
                assert(reclaim <= 0);
            },
            AdmitPlanView::Reject(_) => {},
        }
    }
}

proof fn lemma_blocks_for_positive()
    ensures
        forall|need: int, per: int| need >= 0 && per >= 1 ==> #[trigger] admission::blocks_for(need, per) >= 0,
{
    assert forall|need: int, per: int| need >= 0 && per >= 1 implies #[trigger] admission::blocks_for(
        need,
        per,
    ) >= 0 by {
        assert((need + per - 1) / per >= 0) by (nonlinear_arith)
            requires
                need >= 0,
                per >= 1,
        ;
    }
}

/// A batch of one block that ends its chain is in order.
proof fn lemma_single(meta: BlockMetaView, chain: Seq<Seq<u8>>, pk: i32)
    requires
        meta.id is Some,
        meta.id->0.pool_kind == pk,
        1 <= pk <= 2,
        chain.len() > 0,
        chain.last() == meta.id->0.block_hash,
    ensures
        register::ids_of(seq![meta]) == seq![meta.id->0],
        register::hashes_of(seq![meta.id->0]) == seq![meta.id->0.block_hash],
        register::last_index(chain, meta.id->0.block_hash) == chain.len() - 1,
        register::batch_verdict(seq![meta.id->0], chain) == Ok::<((Seq<char>, Seq<char>), i32), Seq<char>>(
            ((meta.id->0.model_id, meta.id->0.revision), pk),
        ),
{
    let id = meta.id->0;
    assert(seq![meta].drop_last() =~= Seq::empty());
    assert(register::ids_of(seq![meta].drop_last()) =~= Seq::empty());
    assert(register::ids_of(seq![meta]) =~= seq![id]);
    assert(register::hashes_of(seq![id]) =~= seq![id.block_hash]);
    assert(seq![id].drop_last() =~= Seq::empty());
    assert(register::ids_fault(seq![id].drop_last(), id, pk, chain) is None);
    assert(register::id_fault(id, id, pk, chain) is None);
    assert(register::ids_fault(seq![id], id, pk, chain) is None);
    assert(register::contiguous(seq![id], chain)) by {
        assert forall|a: int, b: int, c: int|
            a <= c <= b && #[trigger] register::takes(seq![id], chain, a) && #[trigger] register::takes(
                seq![id],
                chain,
                b,
            ) implies #[trigger] register::takes(seq![id], chain, c) by {
            let i = choose|i: int|
                0 <= i < seq![id].len() && register::last_index(
                    chain,
                    (#[trigger] seq![id][i]).block_hash,
                ) == a;
            let j = choose|j: int|
                0 <= j < seq![id].len() && register::last_index(
                    chain,
                    (#[trigger] seq![id][j]).block_hash,
                ) == b;
            assert(i == 0 && j == 0);
        }
    }
}

/// Bringing back one block.
proof fn lemma_block(a: AuthorityView, c: AuthorityView, x: BlockKeyView)
    requires
        restorable(a),
        partly(a, c),
        a.has_block(x),
        c.block_imported(snapshot::saved(a.block(x))).1 is Ok,
    ensures
        partly(a, c.block_imported(snapshot::saved(a.block(x))).0),
        c.block_imported(snapshot::saved(a.block(x))).0.has_block(x),
        forall|y: BlockKeyView| #[trigger]
            c.has_block(y) ==> c.block_imported(snapshot::saved(a.block(x))).0.has_block(y),
{
    let e = a.block(x);
    let row = snapshot::saved(e);
    let meta = e.meta;
    let id = meta.id->0;
    let k = x.space();
    let pk = x.pool_kind;
    let chain = e.chain;
    assert(a.has_block(x));
    assert(restorable_block(x, e));
    assert(1 <= pk <= 2);
    assert(chain.contains(id.block_hash)) by {
        assert(chain[chain.len() - 1] == id.block_hash);
    }
    assert((BlockMetaView { id: Some(KvBlockIdView { pool_kind: pk, ..id }), ..meta }) == meta);
    lemma_single(meta, chain, pk);
    let home = snapshot::home_node(meta.locations);
    let metas = seq![meta];
    assert(!register::not_durable(metas)) by {
        if register::not_durable(metas) {
            let i = choose|i: int|
                0 <= i < metas.len() && (#[trigger] metas[i]).id is Some
                    && metas[i].locations.len() == 0 && !metas[i].l3_present;
            assert(i == 0);
        }
    }
    assert(c.spaces.contains_key(k));
    let fresh = admission::unknown_flats(c.spaces[k].pool(pk), register::hashes_of(register::ids_of(metas))).len();
    let plan = c.plan(k, fresh)->Ok_0;
    lemma_idle_plan(c, k, fresh);
    assert(c.admitted(k, plan) == c);
    let d = c.block_imported(row).0;
    assert(plan.status() is Accepted);
    assert(d == c.batch_stored(k, pk, home, chain, metas));
    let p = c.spaces[k].pool_or_new(pk);
    let at = chain.len() - 1;
    assert(pool::located(meta.locations, home) =~= meta.locations);
    assert(pool::settled(meta, pk, home) == meta);
    assert(chain.take(at + 1) =~= chain);
    let q = p.stored(x.flat, hash_chain::lineage(chain)[at], meta, chain);
    assert(metas.drop_last() =~= Seq::empty());
    assert(register::stored_all(p, home, pk, chain, metas.drop_last()).0 == p);
    assert(register::stored_all(p, home, pk, chain, metas).0 == q);
    assert(d.pool_at(k, pk) == Some(q));
    assert(d.spaces.dom() =~= a.spaces.dom());
    assert(idle(d)) by {
        assert forall|j: (Seq<char>, Seq<char>)| #[trigger] d.spaces.contains_key(j) implies {
            &&& d.spaces[j].target is Some ==> d.spaces[j].target->0.inactive.nodes.len() == 0
            &&& d.spaces[j].draft is Some ==> d.spaces[j].draft->0.inactive.nodes.len() == 0
        } by {
            assert(c.spaces.contains_key(j));
        }
    }
    assert forall|y: BlockKeyView| #[trigger] d.has_block(y) implies a.has_block(y) && same_entry(
        a.block(y),
        d.block(y),
    ) by {
        if y != x {
            assert(c.has_block(y));
        }
    }
    assert forall|y: BlockKeyView| #[trigger] c.has_block(y) implies d.has_block(y) by {
    }
}

/// Bringing back blocks, in any order.
proof fn lemma_rows(a: AuthorityView, c: AuthorityView, rows: Seq<CheckpointBlockView>)
    requires
        restorable(a),
        partly(a, c),
        forall|i: int| 0 <= i < rows.len() ==> is_saved(a, #[trigger] rows[i]),
        c.blocks_imported(rows).1 is Ok,
    ensures
        partly(a, c.blocks_imported(rows).0),
        forall|x: BlockKeyView|
            (#[trigger] a.has_block(x)) && rows.contains(snapshot::saved(a.block(x)))
                ==> c.blocks_imported(rows).0.has_block(x),
    decreases rows.len(),
{
    if rows.len() > 0 {
        let rest = rows.drop_last();
        assert forall|i: int| 0 <= i < rest.len() implies is_saved(a, #[trigger] rest[i]) by {
            assert(rest[i] == rows[i]);
        }
        lemma_rows(a, c, rest);
        let d = c.blocks_imported(rest).0;
        assert(is_saved(a, rows[rows.len() - 1]));
        let y = choose|y: BlockKeyView| (#[trigger] a.has_block(y)) && snapshot::saved(a.block(y))
            == rows.last();
        lemma_block(a, d, y);
        let f = c.blocks_imported(rows).0;
        assert forall|x: BlockKeyView|
            (#[trigger] a.has_block(x)) && rows.contains(snapshot::saved(a.block(x))) implies f.has_block(
            x,
        ) by {
            let row = snapshot::saved(a.block(x));
            let j = choose|j: int| 0 <= j < rows.len() && rows[j] == row;
            if j < rows.len() - 1 {
                assert(rest[j] == row);
                assert(d.has_block(x));
            } else {
                assert(restorable_block(x, a.block(x)));
                assert(restorable_block(y, a.block(y)));
                assert(x == y);
            }
        }
    }
}

/// The row is that of a block.
pub open spec fn is_saved(a: AuthorityView, row: CheckpointBlockView) -> bool {
    exists|x: BlockKeyView| (#[trigger] a.has_block(x)) && snapshot::saved(a.block(x)) == row
}

proof fn lemma_ranked_contains<T: crate::base::order::Ranked>(s: Seq<T::V>, v: T::V)
    ensures
        order::ranked::<T>(s).contains(v) == s.contains(v),
{
    order::ranked_keeps_values::<T>(s);
    broadcast use vstd::seq_lib::group_to_multiset_ensures;

    assert(order::ranked::<T>(s).to_multiset().count(v) == s.to_multiset().count(v));
}

/// A checkpoint brings everything back: where it can be read in, the models and their
/// limits are those from before, and so are the blocks, with their records, chains and
/// lineages; no other block is there.
pub proof fn checkpoints_bring_everything_back(
    a: AuthorityView,
    b: AuthorityView,
    seq: u64,
    x: BlockKeyView,
)
    requires
        restorable(a),
        b.imported(a.exported(seq)).1 is Ok,
    ensures
        ({
            let c = b.imported(a.exported(seq)).0;
            &&& c.spaces.dom() == a.spaces.dom()
            &&& forall|k: (Seq<char>, Seq<char>)| #[trigger]
                a.spaces.contains_key(k) ==> c.spaces[k].descriptor == a.spaces[k].descriptor
            &&& c.has_block(x) == a.has_block(x)
            &&& a.has_block(x) ==> same_entry(a.block(x), c.block(x))
            &&& c.checkpoint_seq == seq
        }),
{
    let snap = a.exported(seq);
    let c0 = b.cleared(seq);
    let names = a.names();
    lemma_models(a, c0, names.len() as int);
    let models = names.map_values(|k: (Seq<char>, Seq<char>)| a.spaces[k].descriptor);
    assert(models.take(names.len() as int) =~= models);
    assert(names.take(names.len() as int) =~= names);
    let c1 = c0.models_imported(snap.models).0;
    listing::listing_lists::<NamespaceKey>(a.spaces.dom());
    assert(c1.spaces.dom() =~= a.spaces.dom()) by {
        assert forall|k: (Seq<char>, Seq<char>)| c1.spaces.dom().contains(k)
            == a.spaces.dom().contains(k) by {
            assert(c1.spaces.contains_key(k) == names.contains(k));
            assert(names.to_set().contains(k) == a.spaces.dom().contains(k));
        }
    }
    assert(partly(a, c1));
    let all = a.all_blocks().map_values(|y: BlockKeyView| snapshot::saved(a.block(y)));
    let rows = order::ranked::<Row>(snap.blocks);
    assert forall|i: int| 0 <= i < rows.len() implies is_saved(a, #[trigger] rows[i]) by {
        assert(rows.contains(rows[i]));
        lemma_ranked_contains::<Row>(snap.blocks, rows[i]);
        lemma_ranked_contains::<CheckpointBlock>(all, rows[i]);
        let j = choose|j: int| 0 <= j < all.len() && all[j] == rows[i];
        blocks::all_blocks_known(a, j);
        assert(a.has_block(a.all_blocks()[j]));
    }
    lemma_rows(a, c1, rows);
    let c2 = c1.blocks_imported(rows).0;
    lemma_rows_seq(c1, rows);
    if a.has_block(x) {
        blocks::known_blocks_listed(a, x);
        let j = choose|j: int| 0 <= j < a.all_blocks().len() && a.all_blocks()[j] == x;
        let row = snapshot::saved(a.block(x));
        assert(all[j] == row);
        assert(all.contains(row));
        lemma_ranked_contains::<CheckpointBlock>(all, row);
        lemma_ranked_contains::<Row>(snap.blocks, row);
        assert(c2.has_block(x));
    }
    let c = b.imported(snap).0;
    assert(c.has_block(x) == c2.has_block(x));
    if c2.has_block(x) {
        assert(c.block(x) == c2.block(x));
    }
}

/// Reading blocks in does not change the number of the checkpoint.
proof fn lemma_rows_seq(c: AuthorityView, rows: Seq<CheckpointBlockView>)
    ensures
        c.blocks_imported(rows).0.checkpoint_seq == c.checkpoint_seq,
    decreases rows.len(),
{
    if rows.len() > 0 {
        lemma_rows_seq(c, rows.drop_last());
        let d = c.blocks_imported(rows.drop_last()).0;
        lemma_register_seq(d, rows.last());
    }
}

proof fn lemma_register_seq(c: AuthorityView, row: CheckpointBlockView)
    ensures
        c.block_imported(row).0.checkpoint_seq == c.checkpoint_seq,
{
    if row.meta is Some && row.meta->0.id is Some {
        let id = row.meta->0.id->0;
        let pk = match pool::pool_kind_of(id.pool_kind) {
            Ok(pk) => pk,
            Err(_) => PoolKind::Target.spec_number(),
        };
        let chain = if row.prefix_chain.len() == 0 {
            seq![id.block_hash]
        } else {
            row.prefix_chain
        };
        let meta = BlockMetaView {
            id: Some(KvBlockIdView { pool_kind: pk, ..id }),
            ..row.meta->0
        };
        let metas = seq![meta];
        let v = register::batch_verdict(register::ids_of(metas), chain);
        if v is Ok && c.spaces.contains_key(v->Ok_0.0) {
            let (k, kind) = v->Ok_0;
            let fresh = admission::unknown_flats(c.spaces[k].pool(kind), register::hashes_of(register::ids_of(metas))).len();
            let plan = c.plan(k, fresh)->Ok_0;
            match plan {
                AdmitPlanView::Accept { own, reclaim } => {
                    let d = if own > 0 {
                        c.ns_evicted(k, own)
                    } else {
                        c
                    };
                    lemma_reclaimed_seq(d, k, reclaim, d.names());
                },
                AdmitPlanView::Reject(_) => {},
            }
        }
    }
}

proof fn lemma_reclaimed_seq(
    c: AuthorityView,
    except: (Seq<char>, Seq<char>),
    want: int,
    names: Seq<(Seq<char>, Seq<char>)>,
)
    ensures
        c.reclaimed(except, want, names).0.checkpoint_seq == c.checkpoint_seq,
    decreases names.len(),
{
    if names.len() > 0 {
        lemma_reclaimed_seq(c, except, want, names.drop_last());
    }
}

/// No model has limits.
pub open spec fn unlimited(a: AuthorityView) -> bool {
    forall|k: (Seq<char>, Seq<char>)| #[trigger]
        a.spaces.contains_key(k) ==> a.spaces[k].quota().soft_bytes == 0
            && a.spaces[k].quota().hard_bytes == 0
}

proof fn lemma_unlimited_plan(c: AuthorityView, k: (Seq<char>, Seq<char>), n: nat)
    requires
        idle(c),
        c.spaces.contains_key(k),
        c.spaces.dom().finite(),
        c.spaces[k].quota().soft_bytes == 0,
        c.spaces[k].quota().hard_bytes == 0,
    ensures
        c.plan(k, n)->Ok_0.status() is Accepted,
{
    if n > 0 {
        listing::listing_lists::<NamespaceKey>(c.spaces.dom());
        let names = c.names();
        assert forall|i: int| 0 <= i < names.len() implies c.spaces.contains_key(
            #[trigger] names[i],
        ) by {
            assert(names.to_set().contains(names[i]));
        }
        lemma_nothing_reclaimable(c, k, names);
        let ns = c.spaces[k];
        assert(ns.inactive_len() == 0);
        assert(c.free_bytes() >= 0);
        let per = ns.block_bytes();
        assert(admission::blocks_for(0, per) == 0) by {
            assert((per - 1) / per == 0) by (nonlinear_arith)
                requires
                    per >= 1,
            ;
        }
        assert(0 * per == 0) by (nonlinear_arith);
    }
}

proof fn lemma_rows_read(a: AuthorityView, c: AuthorityView, rows: Seq<CheckpointBlockView>)
    requires
        restorable(a),
        unlimited(a),
        partly(a, c),
        forall|i: int| 0 <= i < rows.len() ==> is_saved(a, #[trigger] rows[i]),
    ensures
        c.blocks_imported(rows).1 is Ok,
    decreases rows.len(),
{
    if rows.len() > 0 {
        let rest = rows.drop_last();
        assert forall|i: int| 0 <= i < rest.len() implies is_saved(a, #[trigger] rest[i]) by {
            assert(rest[i] == rows[i]);
        }
        lemma_rows_read(a, c, rest);
        lemma_rows(a, c, rest);
        let d = c.blocks_imported(rest).0;
        assert(is_saved(a, rows[rows.len() - 1]));
        let y = choose|y: BlockKeyView| (#[trigger] a.has_block(y)) && snapshot::saved(a.block(y))
            == rows.last();
        lemma_block_read(a, d, y);
    }
}

proof fn lemma_block_read(a: AuthorityView, c: AuthorityView, x: BlockKeyView)
    requires
        restorable(a),
        unlimited(a),
        partly(a, c),
        a.has_block(x),
    ensures
        c.block_imported(snapshot::saved(a.block(x))).1 is Ok,
{
    let e = a.block(x);
    let meta = e.meta;
    let id = meta.id->0;
    let k = x.space();
    let pk = x.pool_kind;
    let chain = e.chain;
    assert(restorable_block(x, e));
    assert(1 <= pk <= 2);
    assert(chain.contains(id.block_hash)) by {
        assert(chain[chain.len() - 1] == id.block_hash);
    }
    assert((BlockMetaView { id: Some(KvBlockIdView { pool_kind: pk, ..id }), ..meta }) == meta);
    lemma_single(meta, chain, pk);
    let metas = seq![meta];
    assert(!register::not_durable(metas)) by {
        if register::not_durable(metas) {
            let i = choose|i: int|
                0 <= i < metas.len() && (#[trigger] metas[i]).id is Some
                    && metas[i].locations.len() == 0 && !metas[i].l3_present;
            assert(i == 0);
        }
    }
    assert(a.spaces.contains_key(k));
    assert(c.spaces.contains_key(k));
    let fresh = admission::unknown_flats(
        c.spaces[k].pool(pk),
        register::hashes_of(register::ids_of(metas)),
    ).len();
    assert(c.spaces[k].quota() == a.spaces[k].quota());
    lemma_unlimited_plan(c, k, fresh);
}

/// A checkpoint of models without limits can always be read in.
pub proof fn unlimited_checkpoints_are_read_in(a: AuthorityView, b: AuthorityView, seq: u64)
    requires
        restorable(a),
        unlimited(a),
    ensures
        b.imported(a.exported(seq)).1 is Ok,
{
    let snap = a.exported(seq);
    let c0 = b.cleared(seq);
    let names = a.names();
    lemma_models(a, c0, names.len() as int);
    let models = names.map_values(|k: (Seq<char>, Seq<char>)| a.spaces[k].descriptor);
    assert(models.take(names.len() as int) =~= models);
    assert(names.take(names.len() as int) =~= names);
    let c1 = c0.models_imported(snap.models).0;
    listing::listing_lists::<NamespaceKey>(a.spaces.dom());
    assert(c1.spaces.dom() =~= a.spaces.dom()) by {
        assert forall|k: (Seq<char>, Seq<char>)| c1.spaces.dom().contains(k)
            == a.spaces.dom().contains(k) by {
            assert(c1.spaces.contains_key(k) == names.contains(k));
            assert(names.to_set().contains(k) == a.spaces.dom().contains(k));
        }
    }
    assert(partly(a, c1));
    let all = a.all_blocks().map_values(|y: BlockKeyView| snapshot::saved(a.block(y)));
    let rows = order::ranked::<Row>(snap.blocks);
    assert forall|i: int| 0 <= i < rows.len() implies is_saved(a, #[trigger] rows[i]) by {
        assert(rows.contains(rows[i]));
        lemma_ranked_contains::<Row>(snap.blocks, rows[i]);
        lemma_ranked_contains::<CheckpointBlock>(all, rows[i]);
        let j = choose|j: int| 0 <= j < all.len() && all[j] == rows[i];
        blocks::all_blocks_known(a, j);
        assert(a.has_block(a.all_blocks()[j]));
    }
    lemma_rows_read(a, c1, rows);
}

/// Both find the same.
proof fn lemma_same_run(p: PoolView, q: PoolView, prefix: Seq<Seq<u8>>, i: int)
    requires
        forall|f: Seq<u8>| #[trigger]
            p.by_flat.contains_key(f) == q.by_flat.contains_key(f) && (p.by_flat.contains_key(f)
                ==> same_entry(p.by_flat[f], q.by_flat[f])),
    ensures
        locations::run_from(p, prefix, i) == locations::run_from(q, prefix, i),
    decreases prefix.len() - i,
{
    if 0 <= i < prefix.len() {
        assert(p.by_flat.contains_key(prefix[i]) == q.by_flat.contains_key(prefix[i]));
        lemma_same_run(p, q, prefix, i + 1);
    }
}

/// After a checkpoint was read in, every lookup finds what it found before.
pub proof fn restored_lookups_agree(
    a: AuthorityView,
    b: AuthorityView,
    seq: u64,
    k: (Seq<char>, Seq<char>),
    raw_kind: i32,
    prefix: Seq<Seq<u8>>,
    requester: Seq<char>,
)
    requires
        restorable(a),
        b.imported(a.exported(seq)).1 is Ok,
    ensures
        b.imported(a.exported(seq)).0.lookup(k, raw_kind, prefix, requester) == a.lookup(
            k,
            raw_kind,
            prefix,
            requester,
        ),
{
    let c = b.imported(a.exported(seq)).0;
    if prefix.len() > 0 && pool::pool_kind_of(raw_kind) is Ok {
        let pk = pool::pool_kind_of(raw_kind)->Ok_0;
        let none = PoolView::fresh(1);
        let p = match a.pool_at(k, pk) {
            Some(p) => p,
            None => none,
        };
        let q = match c.pool_at(k, pk) {
            Some(q) => q,
            None => none,
        };
        assert forall|f: Seq<u8>| #[trigger]
            p.by_flat.contains_key(f) == q.by_flat.contains_key(f) && (p.by_flat.contains_key(f)
                ==> same_entry(p.by_flat[f], q.by_flat[f])) by {
            let x = BlockKeyView { model_id: k.0, revision: k.1, pool_kind: pk, flat: f };
            checkpoints_bring_everything_back(a, b, seq, x);
            assert(a.has_block(x) == p.by_flat.contains_key(f));
            assert(c.has_block(x) == q.by_flat.contains_key(f));
        }
        lemma_same_run(p, q, prefix, 0);
        lemma_found(p, q, prefix, requester);
        lemma_none(prefix, requester);
    }
}

proof fn lemma_none(prefix: Seq<Seq<u8>>, requester: Seq<char>)
    ensures
        locations::found(PoolView::fresh(1), prefix, requester) == (
            Seq::<ReusableBlockView>::empty(),
            0nat,
            false,
        ),
{
    assert(locations::run_from(PoolView::fresh(1), prefix, 0) == 0);
    assert(locations::found(PoolView::fresh(1), prefix, requester).0 =~= Seq::empty());
}

proof fn lemma_found(p: PoolView, q: PoolView, prefix: Seq<Seq<u8>>, requester: Seq<char>)
    requires
        locations::run_from(p, prefix, 0) == locations::run_from(q, prefix, 0),
        forall|f: Seq<u8>| #[trigger]
            p.by_flat.contains_key(f) == q.by_flat.contains_key(f) && (p.by_flat.contains_key(f)
                ==> same_entry(p.by_flat[f], q.by_flat[f])),
    ensures
        locations::found(p, prefix, requester) == locations::found(q, prefix, requester),
{
    let n = locations::run_from(p, prefix, 0);
    let (bp, _, lp) = locations::found(p, prefix, requester);
    let (bq, _, lq) = locations::found(q, prefix, requester);
    assert forall|i: int| 0 <= i < n implies bp[i] == bq[i] by {
        laws::lookups_have_no_gap(p, prefix, requester, i);
        assert(p.by_flat.contains_key(prefix[i]));
    }
    assert(bp =~= bq);
}

/// Where a hash occurs in a chain, its last place holds it.
proof fn lemma_last_index_holds(prefix: Seq<Seq<u8>>, h: Seq<u8>)
    ensures
        register::last_index(prefix, h) >= 0 ==> register::last_index(prefix, h) < prefix.len()
            && prefix[register::last_index(prefix, h)] == h,
    decreases prefix.len(),
{
    if prefix.len() > 0 && prefix.last() != h {
        lemma_last_index_holds(prefix.drop_last(), h);
        let i = register::last_index(prefix.drop_last(), h);
        if i >= 0 {
            assert(prefix.drop_last()[i] == prefix[i]);
        }
    }
}

/// The records of a batch are in order for their namespace and chain.
spec fn batch_fits(
    metas: Seq<BlockMetaView>,
    k: (Seq<char>, Seq<char>),
    pk: i32,
    prefix: Seq<Seq<u8>>,
) -> bool {
    forall|i: int|
        0 <= i < metas.len() && (#[trigger] metas[i]).id is Some ==> {
            &&& (metas[i].id->0.model_id, metas[i].id->0.revision) == k
            &&& register::last_index(prefix, metas[i].id->0.block_hash) >= 0
            &&& metas[i].locations.len() > 0 || metas[i].l3_present
        }
}

/// What is stored can be brought back.
proof fn lemma_stored_restorable(
    p: PoolView,
    node_id: Seq<char>,
    k: (Seq<char>, Seq<char>),
    pk: i32,
    prefix: Seq<Seq<u8>>,
    metas: Seq<BlockMetaView>,
    f: Seq<u8>,
)
    requires
        batch_fits(metas, k, pk, prefix),
        1 <= pk <= 2,
        node_id.len() > 0,
        p.by_flat.contains_key(f) ==> restorable_block(
            BlockKeyView { model_id: k.0, revision: k.1, pool_kind: pk, flat: f },
            p.by_flat[f],
        ),
    ensures
        ({
            let q = register::stored_all(p, node_id, pk, prefix, metas).0;
            q.by_flat.contains_key(f) ==> restorable_block(
                BlockKeyView { model_id: k.0, revision: k.1, pool_kind: pk, flat: f },
                q.by_flat[f],
            )
        }),
    decreases metas.len(),
{
    if metas.len() > 0 {
        let rest = metas.drop_last();
        assert forall|i: int| 0 <= i < rest.len() && (#[trigger] rest[i]).id is Some implies {
            &&& (rest[i].id->0.model_id, rest[i].id->0.revision) == k
            &&& register::last_index(prefix, rest[i].id->0.block_hash) >= 0
            &&& rest[i].locations.len() > 0 || rest[i].l3_present
        } by {
            assert(rest[i] == metas[i]);
        }
        lemma_stored_restorable(p, node_id, k, pk, prefix, rest, f);
        assert(metas[metas.len() - 1] == metas.last());
        match metas.last().id {
            None => {},
            Some(id) => if id.block_hash == f {
                let at = register::last_index(prefix, f);
                lemma_last_index_holds(prefix, f);
                let chain = prefix.take(at + 1);
                hash_chain::lineage_is_prefix_stable(prefix, at + 1, at);
                assert(chain.last() == f);
            },
        }
    }
}

proof fn lemma_verdict_fits(metas: Seq<BlockMetaView>, prefix: Seq<Seq<u8>>)
    requires
        register::batch_verdict(register::ids_of(metas), prefix) is Ok,
        !register::not_durable(metas),
    ensures
        ({
            let (k, pk) = register::batch_verdict(register::ids_of(metas), prefix)->Ok_0;
            batch_fits(metas, k, pk, prefix) && 1 <= pk <= 2
        }),
{
    let ids = register::ids_of(metas);
    let (k, pk) = register::batch_verdict(ids, prefix)->Ok_0;
    assert forall|i: int| 0 <= i < metas.len() && (#[trigger] metas[i]).id is Some implies {
        &&& (metas[i].id->0.model_id, metas[i].id->0.revision) == k
        &&& register::last_index(prefix, metas[i].id->0.block_hash) >= 0
        &&& metas[i].locations.len() > 0 || metas[i].l3_present
    } by {
        mirror::batches_name_their_blocks(metas, prefix, i);
    }
}

/// What a node registers can be brought back, along with what could be before.
pub proof fn registered_is_restorable(
    a: AuthorityView,
    node_id: Seq<char>,
    prefix: Seq<Seq<u8>>,
    metas: Seq<BlockMetaView>,
)
    requires
        restorable(a),
        node_id.len() > 0,
        a.registered(node_id, prefix, metas).0.finite(),
    ensures
        restorable(a.registered(node_id, prefix, metas).0),
{
    let b = a.registered(node_id, prefix, metas).0;
    let v = register::batch_verdict(register::ids_of(metas), prefix);
    if metas.len() > 0 && v is Ok && a.spaces.contains_key(v->Ok_0.0) {
        let (k, pk) = v->Ok_0;
        let fresh = admission::unknown_flats(
            a.spaces[k].pool(pk),
            register::hashes_of(register::ids_of(metas)),
        ).len();
        let plan = a.plan(k, fresh)->Ok_0;
        laws::admission_only_makes_room(a, k, plan);
        let c = a.admitted(k, plan);
        assert(restorable_rest(a, c)) by {
            assert forall|x: BlockKeyView| #[trigger] c.has_block(x) implies restorable_block(
                x,
                c.block(x),
            ) by {
                laws::room_changes_no_block(a, c, x);
                assert(a.has_block(x));
            }
            assert forall|j: (Seq<char>, Seq<char>)| #[trigger]
                c.spaces.contains_key(j) implies c.spaces[j].descriptor
                == a.spaces[j].descriptor && a.spaces.contains_key(j) by {
                assert(a.spaces.contains_key(j));
            }
        }
        if plan.status() is Accepted && !register::not_durable(metas) {
            lemma_verdict_fits(metas, prefix);
            let p = c.spaces[k].pool_or_new(pk);
            assert(c.spaces.contains_key(k));
            assert(b == c.batch_stored(k, pk, node_id, prefix, metas));
            assert forall|x: BlockKeyView| #[trigger] b.has_block(x) implies restorable_block(
                x,
                b.block(x),
            ) by {
                if x.space() == k && x.pool_kind == pk {
                    if p.by_flat.contains_key(x.flat) {
                        assert(c.has_block(x));
                    }
                    lemma_stored_restorable(p, node_id, k, pk, prefix, metas, x.flat);
                } else {
                    assert(c.has_block(x));
                }
            }
            assert forall|j: (Seq<char>, Seq<char>)| #[trigger] b.spaces.contains_key(j) implies {
                let d = b.spaces[j].descriptor;
                &&& (d.model_id, d.revision) == j
                &&& j.0.len() > 0
                &&& d.quota is Some ==> quota::quota_verdict(d.quota->0) is Ok
            } by {
                assert(c.spaces.contains_key(j));
                assert(a.spaces.contains_key(j));
            }
        }
    }
}

/// What is left after making room can be brought back as before.
spec fn restorable_rest(a: AuthorityView, c: AuthorityView) -> bool {
    &&& forall|x: BlockKeyView| #[trigger] c.has_block(x) ==> restorable_block(x, c.block(x))
    &&& forall|j: (Seq<char>, Seq<char>)| #[trigger]
        c.spaces.contains_key(j) ==> c.spaces[j].descriptor == a.spaces[j].descriptor
            && a.spaces.contains_key(j)
}

} // verus!
