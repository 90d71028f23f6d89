//! What holds of the authority across its operations: what room-making may take, what
//! stays apart, and what is found again.

use vstd::prelude::*;

use crate::base::listing;
use crate::control::admission;
use crate::control::admission::{AdmitPlanView, RegisterStatusView};
use crate::control::authority::{AuthorityView, OrphanView};
use crate::control::hash_chain;
use crate::control::hash_chain::SequenceHash;
use crate::control::inactive::Node;
use crate::control::locations;
use crate::control::namespace::{BlockKey, BlockKeyView, NamespaceKey, NsView};
use crate::control::pool;
use crate::control::pool::PoolView;
use crate::control::reconcile::DEFAULT_ORPHAN_TTL_MS;
use crate::control::register;
use crate::proto::{BlockMetaView, KvBlockIdView, LocationView, PoolKind, Tier};

verus! {

/// Every lineage that the pool knows points to the block that carries it.
pub open spec fn linked(p: PoolView) -> bool {
    forall|s: SequenceHash| #[trigger]
        p.seq_to_flat.contains_key(s) && p.by_flat.contains_key(p.seq_to_flat[s])
            ==> p.by_flat[p.seq_to_flat[s]].seq == s
}

/// A reference holds the block.
pub open spec fn held(p: PoolView, flat: Seq<u8>) -> bool {
    p.by_flat.contains_key(flat) && p.holds(p.by_flat[flat].seq)
}

/// One pool is another after blocks made room: what it has is as it was, and where
/// the lineages are in order, every block that a reference holds is still there, with
/// its references.
pub open spec fn pool_shrunk(p: PoolView, q: PoolView) -> bool {
    &&& forall|f: Seq<u8>| #[trigger]
        q.by_flat.contains_key(f) ==> p.by_flat.contains_key(f) && q.by_flat[f] == p.by_flat[f]
    &&& linked(p) ==> linked(q) && forall|f: Seq<u8>| #[trigger]
        held(p, f) ==> held(q, f) && q.accounts_of(q.by_flat[f].seq) == p.accounts_of(
            p.by_flat[f].seq,
        )
}

proof fn lemma_shrunk_trans(p: PoolView, q: PoolView, r: PoolView)
    requires
        pool_shrunk(p, q),
        pool_shrunk(q, r),
    ensures
        pool_shrunk(p, r),
{
    assert forall|f: Seq<u8>| #[trigger] r.by_flat.contains_key(f) implies p.by_flat.contains_key(f)
        && r.by_flat[f] == p.by_flat[f] by {
        assert(q.by_flat.contains_key(f));
    }
    if linked(p) {
        assert forall|f: Seq<u8>| #[trigger] held(p, f) implies held(r, f) && r.accounts_of(
            r.by_flat[f].seq,
        ) == p.accounts_of(p.by_flat[f].seq) by {
            assert(held(q, f));
        }
    }
}

proof fn lemma_dropped_one(p: PoolView, node: Node)
    ensures
        pool_shrunk(p, p.dropped_one(node).0),
{
    let q = p.dropped_one(node).0;
    if linked(p) {
        assert forall|s: SequenceHash| #[trigger]
            q.seq_to_flat.contains_key(s) && q.by_flat.contains_key(
                q.seq_to_flat[s],
            ) implies q.by_flat[q.seq_to_flat[s]].seq == s by {
            assert(p.seq_to_flat.contains_key(s));
        }
        assert forall|f: Seq<u8>| #[trigger] held(p, f) implies held(q, f) && q.accounts_of(
            q.by_flat[f].seq,
        ) == p.accounts_of(p.by_flat[f].seq) by {
            let s = p.by_flat[f].seq;
            if !p.holds(node.seq) {
                assert(s != node.seq);
                if p.seq_to_flat.contains_key(node.seq) {
                    assert(p.seq_to_flat[node.seq] != f);
                }
            }
        }
    }
}

proof fn lemma_dropped(p: PoolView, victims: Seq<Node>)
    ensures
        pool_shrunk(p, p.dropped(victims).0),
    decreases victims.len(),
{
    if victims.len() > 0 {
        let q = p.dropped(victims.drop_last()).0;
        lemma_dropped(p, victims.drop_last());
        lemma_dropped_one(q, victims.last());
        lemma_shrunk_trans(p, q, q.dropped_one(victims.last()).0);
    }
}

/// Making room takes no block that a reference holds, and changes none that stays.
pub proof fn eviction_spares_referenced_blocks(p: PoolView, n: nat)
    ensures
        pool_shrunk(p, p.evicted(n).0),
{
    let (inactive, victims) = p.inactive.allocated(n, p.freq);
    let q = PoolView { inactive, ..p };
    assert(pool_shrunk(p, q)) by {
        assert forall|f: Seq<u8>| #[trigger] held(p, f) implies held(q, f) && q.accounts_of(
            q.by_flat[f].seq,
        ) == p.accounts_of(p.by_flat[f].seq) by {
        }
    }
    lemma_dropped(q, victims);
    lemma_shrunk_trans(p, q, q.dropped(victims).0);
}

/// One namespace is another after blocks made room.
pub open spec fn ns_shrunk(x: NsView, y: NsView) -> bool {
    &&& x.target is Some == y.target is Some
    &&& x.draft is Some == y.draft is Some
    &&& x.target is Some ==> pool_shrunk(x.target->0, y.target->0)
    &&& x.draft is Some ==> pool_shrunk(x.draft->0, y.draft->0)
    &&& x.descriptor == y.descriptor
    &&& x.cap == y.cap
}

/// One authority is another after blocks made room.
pub open spec fn shrunk(a: AuthorityView, b: AuthorityView) -> bool {
    &&& a.spaces.dom() == b.spaces.dom()
    &&& forall|k: (Seq<char>, Seq<char>)| #[trigger]
        a.spaces.contains_key(k) ==> ns_shrunk(a.spaces[k], b.spaces[k])
    &&& a.orphans == b.orphans
    &&& a.node_refs == b.node_refs
    &&& a.barriers == b.barriers
    &&& a.shard == b.shard
    &&& a.log == b.log
}

proof fn lemma_ns_trans(x: NsView, y: NsView, z: NsView)
    requires
        ns_shrunk(x, y),
        ns_shrunk(y, z),
    ensures
        ns_shrunk(x, z),
{
    if x.target is Some {
        lemma_shrunk_trans(x.target->0, y.target->0, z.target->0);
    }
    if x.draft is Some {
        lemma_shrunk_trans(x.draft->0, y.draft->0, z.draft->0);
    }
}

proof fn lemma_trans(a: AuthorityView, b: AuthorityView, c: AuthorityView)
    requires
        shrunk(a, b),
        shrunk(b, c),
    ensures
        shrunk(a, c),
{
    assert forall|k: (Seq<char>, Seq<char>)| #[trigger] a.spaces.contains_key(k) implies ns_shrunk(
        a.spaces[k],
        c.spaces[k],
    ) by {
        assert(b.spaces.contains_key(k));
        lemma_ns_trans(a.spaces[k], b.spaces[k], c.spaces[k]);
    }
}

proof fn lemma_ns_evicted(ns: NsView, n: nat)
    ensures
        ns_shrunk(ns, ns.evicted(n).0),
{
    if ns.target is Some {
        eviction_spares_referenced_blocks(ns.target->0, n);
    }
    let a = if ns.target is Some {
        ns.target->0.evicted(n).1.len()
    } else {
        0
    };
    let left = if a >= n {
        0nat
    } else {
        (n - a) as nat
    };
    if ns.draft is Some {
        eviction_spares_referenced_blocks(ns.draft->0, left);
    }
}

proof fn lemma_evicted(a: AuthorityView, k: (Seq<char>, Seq<char>), n: nat)
    requires
        a.spaces.contains_key(k),
    ensures
        shrunk(a, a.ns_evicted(k, n)),
{
    lemma_ns_evicted(a.spaces[k], n);
    let b = a.ns_evicted(k, n);
    assert(b.spaces.dom() =~= a.spaces.dom());
    assert forall|j: (Seq<char>, Seq<char>)| #[trigger] a.spaces.contains_key(j) implies ns_shrunk(
        a.spaces[j],
        b.spaces[j],
    ) by {
        if j != k {
            lemma_refl_ns(a.spaces[j]);
        }
    }
}

proof fn lemma_refl_ns(x: NsView)
    ensures
        ns_shrunk(x, x),
{
}

proof fn lemma_refl(a: AuthorityView)
    ensures
        shrunk(a, a),
{
    assert forall|k: (Seq<char>, Seq<char>)| #[trigger] a.spaces.contains_key(k) implies ns_shrunk(
        a.spaces[k],
        a.spaces[k],
    ) by {
        lemma_refl_ns(a.spaces[k]);
    }
}

proof fn lemma_reclaimed(
    a: AuthorityView,
    except: (Seq<char>, Seq<char>),
    want: int,
    names: Seq<(Seq<char>, Seq<char>)>,
)
    requires
        forall|i: int| 0 <= i < names.len() ==> a.spaces.contains_key(#[trigger] names[i]),
    ensures
        shrunk(a, a.reclaimed(except, want, names).0),
        a.spaces.contains_key(except) ==> a.reclaimed(except, want, names).0.spaces[except]
            == a.spaces[except],
    decreases names.len(),
{
    if names.len() == 0 {
        lemma_refl(a);
    } else {
        assert forall|i: int| 0 <= i < names.drop_last().len() implies a.spaces.contains_key(
            #[trigger] names.drop_last()[i],
        ) by {
            assert(names.drop_last()[i] == names[i]);
        }
        lemma_reclaimed(a, except, want, names.drop_last());
        let (b, freed) = a.reclaimed(except, want, names.drop_last());
        let k = names.last();
        assert(a.spaces.contains_key(names[names.len() - 1]));
        assert(b.spaces.contains_key(k));
        let ns = b.spaces[k];
        if !(k == except || freed >= want || admission::borrowed_by(ns) <= 0) {
            let aim = if want - freed <= admission::borrowed_by(ns) {
                want - freed
            } else {
                admission::borrowed_by(ns)
            };
            let n = admission::blocks_for(aim, ns.block_bytes()) as nat;
            lemma_evicted(b, k, n);
            lemma_trans(a, b, b.ns_evicted(k, n));
        }
    }
}

/// Carrying out an admission only makes room: it takes no block that a reference
/// holds, and brings none.
pub proof fn admission_only_makes_room(
    a: AuthorityView,
    k: (Seq<char>, Seq<char>),
    plan: AdmitPlanView,
)
    requires
        a.spaces.dom().finite(),
    ensures
        shrunk(a, a.admitted(k, plan)),
        plan is Reject ==> a.admitted(k, plan) == a,
{
    lemma_refl(a);
    match plan {
        AdmitPlanView::Reject(_) => {},
        AdmitPlanView::Accept { own, reclaim } => {
            let b = if own > 0 && a.spaces.contains_key(k) {
                lemma_evicted(a, k, own);
                a.ns_evicted(k, own)
            } else {
                a
            };
            assert(b.spaces.dom() == a.spaces.dom());
            if reclaim > 0 {
                lemma_names(b);
                lemma_reclaimed(b, k, reclaim, b.names());
                lemma_trans(a, b, b.reclaimed(k, reclaim, b.names()).0);
            }
        },
    }
}

/// The names are those of the namespaces.
proof fn lemma_names(a: AuthorityView)
    requires
        a.spaces.dom().finite(),
    ensures
        forall|i: int| 0 <= i < a.names().len() ==> a.spaces.contains_key(#[trigger] a.names()[i]),
{
    listing::listing_lists::<NamespaceKey>(a.spaces.dom());
    assert forall|i: int| 0 <= i < a.names().len() implies a.spaces.contains_key(
        #[trigger] a.names()[i],
    ) by {
        assert(a.names().to_set().contains(a.names()[i]));
    }
}

/// A batch names the block.
pub open spec fn names_block(metas: Seq<BlockMetaView>, flat: Seq<u8>) -> bool {
    register::hashes_of(register::ids_of(metas)).contains(flat)
}

/// The hashes of a batch grow by that of its last record.
proof fn lemma_names_last(metas: Seq<BlockMetaView>, flat: Seq<u8>)
    requires
        metas.len() > 0,
    ensures
        names_block(metas, flat) == (names_block(metas.drop_last(), flat) || (metas.last().id
            is Some && metas.last().id->0.block_hash == flat)),
{
    let ids = register::ids_of(metas.drop_last());
    let hs = register::hashes_of(ids);
    match metas.last().id {
        Some(id) => {
            assert(register::hashes_of(ids.push(id)) =~= hs.push(id.block_hash));
            if hs.contains(flat) {
                let j = choose|j: int| 0 <= j < hs.len() && hs[j] == flat;
                assert(hs.push(id.block_hash)[j] == flat);
            }
            if id.block_hash == flat {
                assert(hs.push(id.block_hash)[hs.len() as int] == flat);
            }
        },
        None => {},
    }
}

/// Storing a batch gives each of its blocks the lineage of its place in the chain, and
/// leaves every other block as it was.
pub proof fn storing_places_blocks(
    p: PoolView,
    node_id: Seq<char>,
    pool_kind: i32,
    prefix: Seq<Seq<u8>>,
    metas: Seq<BlockMetaView>,
    flat: Seq<u8>,
)
    ensures
        ({
            let q = register::stored_all(p, node_id, pool_kind, prefix, metas).0;
            &&& names_block(metas, flat) ==> q.by_flat.contains_key(flat) && q.by_flat[flat].seq
                == hash_chain::lineage(prefix)[register::last_index(prefix, flat)]
            &&& !names_block(metas, flat) ==> q.by_flat.contains_key(flat)
                == p.by_flat.contains_key(flat) && (p.by_flat.contains_key(flat)
                ==> q.by_flat[flat] == p.by_flat[flat])
            &&& q.refs == p.refs
            &&& q.inactive == p.inactive
            &&& q.cap == p.cap
        }),
    decreases metas.len(),
{
    if metas.len() > 0 {
        storing_places_blocks(p, node_id, pool_kind, prefix, metas.drop_last(), flat);
        lemma_names_last(metas, flat);
    }
}

/// Registering blocks brings no other block, and changes no other: what is there after
/// it was there before as it is, or is one of the blocks that were let in, in their
/// namespace and pool.
pub proof fn registration_adds_only_its_blocks(
    a: AuthorityView,
    node_id: Seq<char>,
    prefix: Seq<Seq<u8>>,
    metas: Seq<BlockMetaView>,
    x: BlockKeyView,
)
    requires
        a.spaces.dom().finite(),
        a.registered(node_id, prefix, metas).0.has_block(x),
    ensures
        ({
            let (b, r) = a.registered(node_id, prefix, metas);
            ||| a.has_block(x) && a.block(x) == b.block(x)
            ||| {
                &&& r == Ok::<RegisterStatusView, Seq<char>>(RegisterStatusView::Accepted)
                &&& register::batch_verdict(register::ids_of(metas), prefix) == Ok::<
                    ((Seq<char>, Seq<char>), i32),
                    Seq<char>,
                >((x.space(), x.pool_kind))
                &&& names_block(metas, x.flat)
            }
        }),
{
    let (b, r) = a.registered(node_id, prefix, metas);
    if metas.len() > 0 {
        match register::batch_verdict(register::ids_of(metas), prefix) {
            Err(_) => {},
            Ok((k, pk)) => if a.spaces.contains_key(k) {
                let fresh = admission::unknown_flats(
                    a.spaces[k].pool(pk),
                    register::hashes_of(register::ids_of(metas)),
                ).len();
                let plan = a.plan(k, fresh)->Ok_0;
                admission_only_makes_room(a, k, plan);
                let c = a.admitted(k, plan);
                room_changes_no_block(a, c, x);
                if plan.status() is Accepted && !register::not_durable(metas) {
                    let p = c.spaces[k].pool_or_new(pk);
                    storing_places_blocks(p, node_id, pk, prefix, metas, x.flat);
                    assert(c.spaces.contains_key(k));
                    assert(b == c.batch_stored(k, pk, node_id, prefix, metas));
                    if !(x.space() == k && x.pool_kind == pk) {
                        assert(c.has_block(x) && c.block(x) == b.block(x));
                    }
                }
            },
        }
    }
}

/// What is left after making room was there as it is.
pub proof fn room_changes_no_block(a: AuthorityView, c: AuthorityView, x: BlockKeyView)
    requires
        shrunk(a, c),
    ensures
        c.has_block(x) ==> a.has_block(x) && a.block(x) == c.block(x),
{
    if c.has_block(x) {
        assert(a.spaces.contains_key(x.space()));
        assert(ns_shrunk(a.spaces[x.space()], c.spaces[x.space()]));
    }
}

/// Blocks that a quota or the pool's capacity keeps out change nothing, and neither do
/// blocks that are not in order or whose model is not registered.
pub proof fn refused_registration_changes_nothing(
    a: AuthorityView,
    node_id: Seq<char>,
    prefix: Seq<Seq<u8>>,
    metas: Seq<BlockMetaView>,
)
    requires
        ({
            let v = register::batch_verdict(register::ids_of(metas), prefix);
            ||| a.registered(node_id, prefix, metas).1 matches Ok(
                RegisterStatusView::RejectedHardQuota(_),
            )
            ||| v is Err
            ||| !a.spaces.contains_key(v->Ok_0.0)
        }),
    ensures
        a.registered(node_id, prefix, metas).0 == a,
{
}

/// What is registered is durable: every record of a batch that is let in names a
/// copy, or object storage holds its block.
pub proof fn registered_is_durable(
    a: AuthorityView,
    node_id: Seq<char>,
    prefix: Seq<Seq<u8>>,
    metas: Seq<BlockMetaView>,
    i: int,
)
    requires
        a.registered(node_id, prefix, metas).1 == Ok::<RegisterStatusView, Seq<char>>(
            RegisterStatusView::Accepted,
        ),
        0 <= i < metas.len(),
        metas[i].id is Some,
    ensures
        metas[i].locations.len() > 0 || metas[i].l3_present,
{
}

/// Asking ahead foretells the admission: what would keep blocks out keeps them out,
/// and what would let them in lets them in unless they are not durable.
pub proof fn preflight_foretells(
    a: AuthorityView,
    node_id: Seq<char>,
    prefix: Seq<Seq<u8>>,
    metas: Seq<BlockMetaView>,
)
    requires
        metas.len() > 0,
        register::batch_verdict(register::ids_of(metas), prefix) is Ok,
        a.spaces.contains_key(
            register::batch_verdict(register::ids_of(metas), prefix)->Ok_0.0,
        ),
    ensures
        ({
            let (k, pk) = register::batch_verdict(register::ids_of(metas), prefix)->Ok_0;
            let ahead = a.preflight(k, pk, register::hashes_of(register::ids_of(metas)));
            let r = a.registered(node_id, prefix, metas).1;
            &&& ahead is Ok
            &&& ahead->Ok_0 is RejectedHardQuota ==> r == ahead
            &&& ahead->Ok_0 is Accepted ==> (r == ahead) != register::not_durable(metas)
        }),
{
    let ids = register::ids_of(metas);
    let (k, pk) = register::batch_verdict(ids, prefix)->Ok_0;
    assert(pool::pool_kind_of(pk) == Ok::<i32, Seq<char>>(pk));
}

/// A hash that occurs once in a chain is at its place.
proof fn lemma_last_index(prefix: Seq<Seq<u8>>, i: int)
    requires
        prefix.no_duplicates(),
        0 <= i < prefix.len(),
    ensures
        register::last_index(prefix, prefix[i]) == i,
    decreases prefix.len(),
{
    if i < prefix.len() - 1 {
        assert(prefix[i] != prefix[prefix.len() - 1]);
        assert(prefix.drop_last().no_duplicates()) by {
            assert forall|x: int, y: int|
                0 <= x < prefix.drop_last().len() && 0 <= y < prefix.drop_last().len() && x
                    != y implies prefix.drop_last()[x] != prefix.drop_last()[y] by {
                assert(prefix[x] != prefix[y]);
            }
        }
        lemma_last_index(prefix.drop_last(), i);
        assert(prefix.drop_last()[i] == prefix[i]);
    }
}

proof fn lemma_run(p: PoolView, prefix: Seq<Seq<u8>>, i: int)
    requires
        0 <= i <= prefix.len(),
        forall|j: int| i <= j < prefix.len() ==> #[trigger] locations::matched(p, prefix, j),
    ensures
        locations::run_from(p, prefix, i) == prefix.len() - i,
    decreases prefix.len() - i,
{
    if i < prefix.len() {
        assert(locations::matched(p, prefix, i));
        lemma_run(p, prefix, i + 1);
    }
}

/// What was registered is found: once a batch is stored, a lookup of its chain finds
/// all of it, where the blocks that the batch leaves out were there with their
/// lineage. No hash may occur twice in the chain.
pub proof fn registered_is_found(
    a: AuthorityView,
    k: (Seq<char>, Seq<char>),
    pk: i32,
    node_id: Seq<char>,
    prefix: Seq<Seq<u8>>,
    metas: Seq<BlockMetaView>,
    requester: Seq<char>,
)
    requires
        a.spaces.contains_key(k),
        pool::pool_kind_of(pk) == Ok::<i32, Seq<char>>(pk),
        prefix.len() > 0,
        prefix.no_duplicates(),
        forall|i: int|
            0 <= i < prefix.len() ==> names_block(metas, #[trigger] prefix[i])
                || locations::matched(a.spaces[k].pool_or_new(pk), prefix, i),
    ensures
        a.batch_stored(k, pk, node_id, prefix, metas).lookup(k, pk, prefix, requester).1
            == prefix.len(),
{
    let p = a.spaces[k].pool_or_new(pk);
    let q = register::stored_all(p, node_id, pk, prefix, metas).0;
    assert forall|i: int| 0 <= i < prefix.len() implies #[trigger] locations::matched(
        q,
        prefix,
        i,
    ) by {
        storing_places_blocks(p, node_id, pk, prefix, metas, prefix[i]);
        lemma_last_index(prefix, i);
    }
    lemma_run(q, prefix, 0);
    let b = a.batch_stored(k, pk, node_id, prefix, metas);
    assert(b.pool_at(k, pk) == Some(q));
}

/// A whole chain that is let in is found at once, whatever had to make room for it.
pub proof fn registered_chain_is_found(
    a: AuthorityView,
    node_id: Seq<char>,
    prefix: Seq<Seq<u8>>,
    metas: Seq<BlockMetaView>,
    requester: Seq<char>,
)
    requires
        a.spaces.dom().finite(),
        metas.len() > 0,
        a.registered(node_id, prefix, metas).1 == Ok::<RegisterStatusView, Seq<char>>(
            RegisterStatusView::Accepted,
        ),
        prefix.no_duplicates(),
        forall|i: int| 0 <= i < prefix.len() ==> names_block(metas, #[trigger] prefix[i]),
    ensures
        ({
            let (k, pk) = register::batch_verdict(register::ids_of(metas), prefix)->Ok_0;
            a.registered(node_id, prefix, metas).0.lookup(k, pk, prefix, requester).1
                == prefix.len()
        }),
{
    let (k, pk) = register::batch_verdict(register::ids_of(metas), prefix)->Ok_0;
    let fresh = admission::unknown_flats(
        a.spaces[k].pool(pk),
        register::hashes_of(register::ids_of(metas)),
    ).len();
    let plan = a.plan(k, fresh)->Ok_0;
    admission_only_makes_room(a, k, plan);
    let c = a.admitted(k, plan);
    assert(c.spaces.contains_key(k));
    registered_is_found(c, k, pk, node_id, prefix, metas, requester);
}

/// A lookup of a chain sees its own namespace and pool only.
pub proof fn lookups_stay_in_their_pool(
    a: AuthorityView,
    b: AuthorityView,
    k: (Seq<char>, Seq<char>),
    raw_kind: i32,
    prefix: Seq<Seq<u8>>,
    requester: Seq<char>,
)
    requires
        pool::pool_kind_of(raw_kind) is Ok ==> a.pool_at(k, pool::pool_kind_of(raw_kind)->Ok_0)
            == b.pool_at(k, pool::pool_kind_of(raw_kind)->Ok_0),
    ensures
        a.lookup(k, raw_kind, prefix, requester) == b.lookup(k, raw_kind, prefix, requester),
{
}

/// What a lookup finds is the front of the chain without a gap: every block before the
/// count is there with the lineage of its place, and the next one is not.
pub proof fn lookups_have_no_gap(
    p: PoolView,
    prefix: Seq<Seq<u8>>,
    requester: Seq<char>,
    i: int,
)
    ensures
        ({
            let n = locations::found(p, prefix, requester).1;
            &&& n <= prefix.len()
            &&& 0 <= i < n ==> locations::matched(p, prefix, i)
            &&& n < prefix.len() ==> !locations::matched(p, prefix, n as int)
        }),
{
    lemma_no_gap(p, prefix, 0, i);
}

proof fn lemma_no_gap(p: PoolView, prefix: Seq<Seq<u8>>, from: int, i: int)
    requires
        0 <= from <= prefix.len(),
    ensures
        from + locations::run_from(p, prefix, from) <= prefix.len(),
        from <= i < from + locations::run_from(p, prefix, from) ==> locations::matched(p, prefix, i),
        from + locations::run_from(p, prefix, from) < prefix.len() ==> !locations::matched(
            p,
            prefix,
            from + locations::run_from(p, prefix, from),
        ),
    decreases prefix.len() - from,
{
    if from < prefix.len() && locations::matched(p, prefix, from) {
        lemma_no_gap(p, prefix, from + 1, i);
    }
}

/// A block that is registered is no orphan any more.
pub proof fn registered_is_no_orphan(
    a: AuthorityView,
    k: (Seq<char>, Seq<char>),
    pk: i32,
    node_id: Seq<char>,
    prefix: Seq<Seq<u8>>,
    metas: Seq<BlockMetaView>,
    flat: Seq<u8>,
)
    requires
        names_block(metas, flat),
    ensures
        !a.batch_stored(k, pk, node_id, prefix, metas).orphans.contains_key(
            BlockKeyView { model_id: k.0, revision: k.1, pool_kind: pk, flat },
        ),
{
    lemma_orphans_without(
        a.orphans,
        k,
        pk,
        register::hashes_of(register::ids_of(metas)),
        flat,
    );
}

proof fn lemma_orphans_without(
    orphans: Map<BlockKeyView, OrphanView>,
    k: (Seq<char>, Seq<char>),
    pk: i32,
    hashes: Seq<Seq<u8>>,
    flat: Seq<u8>,
)
    requires
        hashes.contains(flat),
    ensures
        !register::orphans_without(orphans, k, pk, hashes).contains_key(
            BlockKeyView { model_id: k.0, revision: k.1, pool_kind: pk, flat },
        ),
    decreases hashes.len(),
{
    if hashes.last() != flat {
        let j = choose|j: int| 0 <= j < hashes.len() && hashes[j] == flat;
        assert(hashes.drop_last()[j] == flat);
        lemma_orphans_without(orphans, k, pk, hashes.drop_last(), flat);
    }
}

/// The address is that of a block which is not in the view.
pub open spec fn unseen(a: AuthorityView, id: KvBlockIdView) -> bool {
    exists|b: BlockKeyView| id == b.id() && !#[trigger] a.in_view(b)
}

/// What a sweep gives up is not in the view.
pub proof fn sweep_spares_registered_blocks(a: AuthorityView, ttl_ms: u64, i: int)
    requires
        0 <= i < a.orphans_swept(ttl_ms).1.len(),
    ensures
        unseen(a, a.orphans_swept(ttl_ms).1[i]),
        a.orphans_swept(ttl_ms).0.spaces == a.spaces,
{
    let ttl = if ttl_ms == 0 {
        DEFAULT_ORPHAN_TTL_MS
    } else {
        ttl_ms
    };
    lemma_swept(a, ttl, listing::listing::<BlockKey>(a.orphans.dom()));
}

proof fn lemma_swept(a: AuthorityView, ttl: u64, blocks: Seq<BlockKeyView>)
    ensures
        a.swept(ttl, blocks).0.spaces == a.spaces,
        forall|i: int|
            0 <= i < a.swept(ttl, blocks).1.len() ==> unseen(
                a,
                #[trigger] a.swept(ttl, blocks).1[i],
            ),
    decreases blocks.len(),
{
    if blocks.len() > 0 {
        lemma_swept(a, ttl, blocks.drop_last());
        let (c, ids) = a.swept(ttl, blocks.drop_last());
        assert forall|i: int| 0 <= i < a.swept(ttl, blocks).1.len() implies unseen(
            a,
            #[trigger] a.swept(ttl, blocks).1[i],
        ) by {
            if i < ids.len() {
                assert(a.swept(ttl, blocks).1[i] == ids[i]);
            } else {
                assert(!a.in_view(blocks.last()));
            }
        }
    }
}

/// The pool that a number names; without one it is the target model's.
pub open spec fn named_pool(raw_kind: i32) -> i32 {
    if raw_kind == 0 {
        PoolKind::Target.spec_number()
    } else {
        raw_kind
    }
}

/// A lookup returns the front of a chain: as many blocks as are there one after the other,
/// each under the lineage of its place, with their records, and tells of each whether a copy
/// is in L0 of the requester. A whole chain is local where each of its blocks is. Without a
/// pool nothing is found.
pub proof fn lookup_returns_the_front(
    a: AuthorityView,
    k: (Seq<char>, Seq<char>),
    raw_kind: i32,
    prefix: Seq<Seq<u8>>,
    requester: Seq<char>,
    i: int,
)
    ensures
        a.lookup(k, raw_kind, prefix, requester).1 == a.lookup(
            k,
            raw_kind,
            prefix,
            requester,
        ).0.len(),
        a.lookup(k, raw_kind, prefix, requester).1 <= prefix.len(),
        a.pool_at(k, named_pool(raw_kind)) is None ==> a.lookup(k, raw_kind, prefix, requester).1
            == 0,
        0 <= i < a.lookup(k, raw_kind, prefix, requester).1 ==> {
            let p = a.pool_at(k, named_pool(raw_kind))->0;
            let block = a.lookup(k, raw_kind, prefix, requester).0[i];
            let e = p.by_flat[prefix[i]];
            &&& p.by_flat.contains_key(prefix[i])
            &&& e.seq == hash_chain::lineage(prefix)[i]
            &&& block.meta == Some(e.meta)
            &&& block.id == e.meta.id
            &&& block.local_hit == exists|j: int|
                0 <= j < e.meta.locations.len() && (#[trigger] e.meta.locations[j]).tier
                    == Tier::L0.spec_number() && e.meta.locations[j].node_id == requester
        },
        a.pool_at(k, named_pool(raw_kind)) is Some && a.lookup(k, raw_kind, prefix, requester).1
            < prefix.len() ==> {
            let p = a.pool_at(k, named_pool(raw_kind))->0;
            let n = a.lookup(k, raw_kind, prefix, requester).1 as int;
            !(p.by_flat.contains_key(prefix[n]) && p.by_flat[prefix[n]].seq == hash_chain::lineage(
                prefix,
            )[n])
        },
        a.lookup(k, raw_kind, prefix, requester).2 <==> 0 < a.lookup(
            k,
            raw_kind,
            prefix,
            requester,
        ).1 == prefix.len() && forall|j: int|
            0 <= j < prefix.len() ==> (#[trigger] a.lookup(
                k,
                raw_kind,
                prefix,
                requester,
            ).0[j]).local_hit,
{
    if pool::pool_kind_of(raw_kind) is Ok {
        let pk = pool::pool_kind_of(raw_kind)->Ok_0;
        if a.pool_at(k, pk) is Some {
            let p = a.pool_at(k, pk)->0;
            lemma_no_gap(p, prefix, 0, i);
            let (blocks, n, local) = a.lookup(k, raw_kind, prefix, requester);
            if prefix.len() > 0 {
                assert((blocks, n, local) == locations::found(p, prefix, requester));
                assert(n == locations::run_from(p, prefix, 0));
            }
            assert(blocks.len() == n && n <= prefix.len());
            if 0 <= i < n {
                assert(locations::matched(p, prefix, i));
                assert(blocks[i] == locations::reusable(p.by_flat[prefix[i]].meta, requester));
            }
            assert(n < prefix.len() ==> !locations::matched(p, prefix, n as int));
            if 0 <= i < n {
                let e = p.by_flat[prefix[i]];
                assert(blocks[i].local_hit == exists|j: int|
                    0 <= j < e.meta.locations.len() && (#[trigger] e.meta.locations[j]).tier
                        == Tier::L0.spec_number() && e.meta.locations[j].node_id == requester);
            }
            assert(local <==> 0 < n == prefix.len() && forall|j: int|
                0 <= j < n ==> (#[trigger] blocks[j]).local_hit);
            assert(n < prefix.len() ==> !(p.by_flat.contains_key(prefix[n as int])
                && p.by_flat[prefix[n as int]].seq == hash_chain::lineage(prefix)[n as int]));
        }
    } else {
        assert(a.pool_at(k, raw_kind) is None);
    }
}

/// A record as it is kept: its pool is named, copies without a node are those of the node
/// that registers it, and the rest is as it was given.
pub open spec fn kept_as(
    given: BlockMetaView,
    kept: BlockMetaView,
    pk: i32,
    node_id: Seq<char>,
) -> bool {
    &&& given.id is Some
    &&& kept.id == Some(KvBlockIdView { pool_kind: pk, ..given.id->0 })
    &&& kept.locations.len() == given.locations.len()
    &&& forall|i: int|
        0 <= i < given.locations.len() ==> #[trigger] kept.locations[i] == (if given.locations[i].node_id.len()
            == 0 {
            LocationView { node_id, ..given.locations[i] }
        } else {
            given.locations[i]
        })
    &&& kept.l3_present == given.l3_present
    &&& kept.block_kind == given.block_kind
    &&& (BlockMetaView { id: given.id, locations: given.locations, ..kept }) == given
}

proof fn lemma_stored_record(
    p: PoolView,
    node_id: Seq<char>,
    pk: i32,
    prefix: Seq<Seq<u8>>,
    metas: Seq<BlockMetaView>,
    i: int,
)
    requires
        0 <= i < metas.len(),
        metas[i].id is Some,
        forall|j: int|
            i < j < metas.len() && (#[trigger] metas[j]).id is Some ==> metas[j].id->0.block_hash
                != metas[i].id->0.block_hash,
    ensures
        ({
            let q = register::stored_all(p, node_id, pk, prefix, metas).0;
            let f = metas[i].id->0.block_hash;
            let at = register::last_index(prefix, f);
            &&& q.by_flat.contains_key(f)
            &&& kept_as(metas[i], q.by_flat[f].meta, pk, node_id)
            &&& q.by_flat[f].seq == hash_chain::lineage(prefix)[at]
            &&& q.by_flat[f].chain == prefix.take(at + 1)
        }),
    decreases metas.len(),
{
    let init = metas.drop_last();
    let f = metas[i].id->0.block_hash;
    if i < init.len() {
        assert(init[i] == metas[i]);
        assert forall|j: int| i < j < init.len() && (#[trigger] init[j]).id is Some implies init[j].id->0.block_hash
            != init[i].id->0.block_hash by {
            assert(init[j] == metas[j]);
        }
        lemma_stored_record(p, node_id, pk, prefix, init, i);
        assert(metas[metas.len() - 1] == metas.last());
    } else {
        assert(pool::settled(metas[i], pk, node_id).locations.len() == metas[i].locations.len());
    }
}

/// What is registered is kept: after a batch that was let in, each block of it has the record
/// that the batch gave last, the lineage of its place in the chain, and the chain up to that
/// place.
pub proof fn registered_record_is_kept(
    a: AuthorityView,
    node_id: Seq<char>,
    prefix: Seq<Seq<u8>>,
    metas: Seq<BlockMetaView>,
    i: int,
    at: int,
)
    requires
        a.spaces.dom().finite(),
        a.registered(node_id, prefix, metas).1 == Ok::<RegisterStatusView, Seq<char>>(
            RegisterStatusView::Accepted,
        ),
        0 <= i < metas.len(),
        metas[i].id is Some,
        forall|j: int|
            i < j < metas.len() && (#[trigger] metas[j]).id is Some ==> metas[j].id->0.block_hash
                != metas[i].id->0.block_hash,
        0 <= at < prefix.len(),
        prefix[at] == metas[i].id->0.block_hash,
        forall|j: int| at < j < prefix.len() ==> #[trigger] prefix[j] != prefix[at],
    ensures
        ({
            let id = metas[i].id->0;
            let pk = if id.pool_kind == 0 {
                PoolKind::Target.spec_number()
            } else {
                id.pool_kind
            };
            let x = BlockKeyView {
                model_id: id.model_id,
                revision: id.revision,
                pool_kind: pk,
                flat: id.block_hash,
            };
            let b = a.registered(node_id, prefix, metas).0;
            &&& b.has_block(x)
            &&& kept_as(metas[i], b.block(x).meta, pk, node_id)
            &&& b.block(x).seq == hash_chain::lineage(prefix)[at]
            &&& b.block(x).chain == prefix.take(at + 1)
        }),
{
    let ids = register::ids_of(metas);
    let (k, pk) = register::batch_verdict(ids, prefix)->Ok_0;
    let fresh = admission::unknown_flats(
        a.spaces[k].pool(pk),
        register::hashes_of(ids),
    ).len();
    let plan = a.plan(k, fresh)->Ok_0;
    admission_only_makes_room(a, k, plan);
    let c = a.admitted(k, plan);
    let p = c.spaces[k].pool_or_new(pk);
    lemma_stored_record(p, node_id, pk, prefix, metas, i);
    lemma_last_of(prefix, at);
    lemma_ids_listed(metas, i);
    let id = metas[i].id->0;
    let m = choose|m: int| 0 <= m < ids.len() && ids[m] == id;
    lemma_ids_agree(ids, ids[0], pk, prefix, m);
    let b = a.registered(node_id, prefix, metas).0;
    assert(b.pool_at(k, pk) == Some(register::stored_all(p, node_id, pk, prefix, metas).0));
}

proof fn lemma_last_of(prefix: Seq<Seq<u8>>, at: int)
    requires
        0 <= at < prefix.len(),
        forall|j: int| at < j < prefix.len() ==> #[trigger] prefix[j] != prefix[at],
    ensures
        register::last_index(prefix, prefix[at]) == at,
    decreases prefix.len(),
{
    if at < prefix.len() - 1 {
        assert(prefix[prefix.len() - 1] != prefix[at]);
        assert forall|j: int| at < j < prefix.drop_last().len() implies #[trigger] prefix.drop_last()[j]
            != prefix.drop_last()[at] by {
            assert(prefix[j] != prefix[at]);
        }
        lemma_last_of(prefix.drop_last(), at);
    }
}

proof fn lemma_ids_listed(metas: Seq<BlockMetaView>, i: int)
    requires
        0 <= i < metas.len(),
        metas[i].id is Some,
    ensures
        register::ids_of(metas).contains(metas[i].id->0),
    decreases metas.len(),
{
    let ids = register::ids_of(metas);
    let rest = register::ids_of(metas.drop_last());
    if i < metas.len() - 1 {
        lemma_ids_listed(metas.drop_last(), i);
        let m = choose|m: int| 0 <= m < rest.len() && rest[m] == metas[i].id->0;
        assert(ids[m] == rest[m]);
    } else {
        assert(ids[rest.len() as int] == metas[i].id->0);
    }
}

proof fn lemma_ids_agree(
    ids: Seq<KvBlockIdView>,
    first: KvBlockIdView,
    pk: i32,
    prefix: Seq<Seq<u8>>,
    m: int,
)
    requires
        register::ids_fault(ids, first, pk, prefix) is None,
        0 <= m < ids.len(),
    ensures
        ids[m].model_id == first.model_id,
        ids[m].revision == first.revision,
        pool::pool_kind_of(ids[m].pool_kind) == Ok::<i32, Seq<char>>(pk),
    decreases ids.len(),
{
    if m < ids.len() - 1 {
        lemma_ids_agree(ids.drop_last(), first, pk, prefix, m);
    }
}

/// Some block of a batch has the hash.
pub open spec fn names_hash(ids: Seq<KvBlockIdView>, h: Seq<u8>) -> bool {
    exists|i: int| 0 <= i < ids.len() && (#[trigger] ids[i]).block_hash == h
}

/// The block is of the same model, revision and pool as another, and the pool is one of the
/// two that there are.
pub open spec fn same_pool(id: KvBlockIdView, first: KvBlockIdView) -> bool {
    &&& id.model_id == first.model_id
    &&& id.revision == first.revision
    &&& named_pool(id.pool_kind) == named_pool(first.pool_kind)
    &&& named_pool(id.pool_kind) == PoolKind::Target.spec_number() || named_pool(id.pool_kind)
        == PoolKind::Draft.spec_number()
}

/// A batch can be registered exactly where it comes with a prefix, its blocks are of one
/// model, revision and pool, each stands in the prefix, and none is left out between two of
/// them. It then goes to the pool that its blocks name. This is said of prefixes in which no
/// hash occurs twice.
pub proof fn batches_are_stretches_of_one_prefix(ids: Seq<KvBlockIdView>, prefix: Seq<Seq<u8>>)
    requires
        prefix.no_duplicates(),
    ensures
        register::batch_verdict(ids, prefix) is Ok <==> {
            &&& ids.len() > 0
            &&& prefix.len() > 0
            &&& forall|i: int|
                0 <= i < ids.len() ==> same_pool(#[trigger] ids[i], ids[0]) && prefix.contains(
                    ids[i].block_hash,
                )
            &&& forall|a: int, c: int, b: int|
                0 <= a <= c <= b < prefix.len() && names_hash(ids, #[trigger] prefix[a])
                    && names_hash(ids, #[trigger] prefix[b]) ==> names_hash(
                    ids,
                    #[trigger] prefix[c],
                )
        },
        register::batch_verdict(ids, prefix) matches Ok((k, pk)) ==> k == (
            ids[0].model_id,
            ids[0].revision,
        ) && pk == named_pool(ids[0].pool_kind),
{
    if ids.len() > 0 {
        let first = ids[0];
        lemma_no_fault(ids, first, named_pool(first.pool_kind), prefix);
        assert forall|i: int| 0 <= i < ids.len() implies prefix.contains(
            (#[trigger] ids[i]).block_hash,
        ) == (register::last_index(prefix, ids[i].block_hash) >= 0) by {
            register::lemma_last_index(prefix, ids[i].block_hash);
        }
        lemma_takes_named(ids, prefix);
        if register::contiguous(ids, prefix) {
            assert forall|a: int, c: int, b: int|
                0 <= a <= c <= b < prefix.len() && names_hash(ids, #[trigger] prefix[a])
                    && names_hash(ids, #[trigger] prefix[b]) implies names_hash(
                ids,
                #[trigger] prefix[c],
            ) by {
                assert(register::takes(ids, prefix, a));
                assert(register::takes(ids, prefix, b));
                assert(register::takes(ids, prefix, c));
            }
        }
        if (forall|i: int|
            0 <= i < ids.len() ==> prefix.contains((#[trigger] ids[i]).block_hash)) && forall|
            a: int,
            c: int,
            b: int,
        |
            0 <= a <= c <= b < prefix.len() && names_hash(ids, #[trigger] prefix[a])
                && names_hash(ids, #[trigger] prefix[b]) ==> names_hash(ids, #[trigger] prefix[c]) {
            assert forall|a: int, b: int, c: int|
                a <= c <= b && #[trigger] register::takes(ids, prefix, a)
                    && #[trigger] register::takes(ids, prefix, b) implies #[trigger] register::takes(
                ids,
                prefix,
                c,
            ) by {
                lemma_taken_place(ids, prefix, a);
                lemma_taken_place(ids, prefix, b);
                assert(names_hash(ids, prefix[a]));
                assert(names_hash(ids, prefix[b]));
                assert(names_hash(ids, prefix[c]));
            }
        }
    }
}

proof fn lemma_no_fault(
    ids: Seq<KvBlockIdView>,
    first: KvBlockIdView,
    pk: i32,
    prefix: Seq<Seq<u8>>,
)
    ensures
        register::ids_fault(ids, first, pk, prefix) is None <==> forall|i: int|
            0 <= i < ids.len() ==> register::id_fault(#[trigger] ids[i], first, pk, prefix) is None,
    decreases ids.len(),
{
    if ids.len() > 0 {
        let init = ids.drop_last();
        lemma_no_fault(init, first, pk, prefix);
        assert(ids[ids.len() - 1] == ids.last());
        if register::ids_fault(ids, first, pk, prefix) is None {
            assert forall|i: int| 0 <= i < ids.len() implies register::id_fault(
                #[trigger] ids[i],
                first,
                pk,
                prefix,
            ) is None by {
                if i < init.len() {
                    assert(init[i] == ids[i]);
                }
            }
        } else if forall|i: int|
            0 <= i < ids.len() ==> register::id_fault(#[trigger] ids[i], first, pk, prefix) is None {
            assert forall|i: int| 0 <= i < init.len() implies register::id_fault(
                #[trigger] init[i],
                first,
                pk,
                prefix,
            ) is None by {
                assert(init[i] == ids[i]);
            }
        }
    }
}

proof fn lemma_takes_named(ids: Seq<KvBlockIdView>, prefix: Seq<Seq<u8>>)
    requires
        prefix.no_duplicates(),
    ensures
        forall|at: int|
            0 <= at < prefix.len() ==> register::takes(ids, prefix, at) == names_hash(
                ids,
                #[trigger] prefix[at],
            ),
{
    assert forall|at: int| 0 <= at < prefix.len() implies register::takes(ids, prefix, at)
        == names_hash(ids, #[trigger] prefix[at]) by {
        register::lemma_last_index(prefix, prefix[at]);
        assert(prefix.contains(prefix[at]));
        assert(register::last_index(prefix, prefix[at]) == at);
        if register::takes(ids, prefix, at) {
            let i = choose|i: int|
                0 <= i < ids.len() && register::last_index(prefix, (#[trigger] ids[i]).block_hash)
                    == at;
            register::lemma_last_index(prefix, ids[i].block_hash);
            assert(ids[i].block_hash == prefix[at]);
        }
        if names_hash(ids, prefix[at]) {
            let i = choose|i: int|
                0 <= i < ids.len() && (#[trigger] ids[i]).block_hash == prefix[at];
            assert(register::last_index(prefix, ids[i].block_hash) == at);
        }
    }
}

proof fn lemma_taken_place(ids: Seq<KvBlockIdView>, prefix: Seq<Seq<u8>>, at: int)
    requires
        register::takes(ids, prefix, at),
        forall|i: int| 0 <= i < ids.len() ==> prefix.contains((#[trigger] ids[i]).block_hash),
    ensures
        0 <= at < prefix.len(),
{
    let i = choose|i: int|
        0 <= i < ids.len() && register::last_index(prefix, (#[trigger] ids[i]).block_hash) == at;
    register::lemma_last_index(prefix, ids[i].block_hash);
}

/// A registration is taken only for a model that is known, and, but for one that the quota
/// turns down, only where every block of it is durable.
pub proof fn registration_wants_a_known_model(
    a: AuthorityView,
    node_id: Seq<char>,
    prefix: Seq<Seq<u8>>,
    metas: Seq<BlockMetaView>,
    i: int,
)
    requires
        0 <= i < metas.len(),
        metas[i].id is Some,
        a.registered(node_id, prefix, metas).1 is Ok,
    ensures
        a.spaces.contains_key((metas[i].id->0.model_id, metas[i].id->0.revision)),
        a.registered(node_id, prefix, metas).1->Ok_0 is Accepted ==> metas[i].locations.len() > 0
            || metas[i].l3_present,
{
    let ids = register::ids_of(metas);
    lemma_ids_of_has(metas, i);
    let j = choose|j: int| 0 <= j < ids.len() && #[trigger] ids[j] == metas[i].id->0;
    if ids.len() > 0 {
        lemma_no_fault(ids, ids[0], named_pool(ids[0].pool_kind), prefix);
        assert(register::id_fault(ids[j], ids[0], named_pool(ids[0].pool_kind), prefix) is None);
    }
}

proof fn lemma_ids_of_has(metas: Seq<BlockMetaView>, i: int)
    requires
        0 <= i < metas.len(),
        metas[i].id is Some,
    ensures
        exists|j: int|
            0 <= j < register::ids_of(metas).len() && #[trigger] register::ids_of(metas)[j]
                == metas[i].id->0,
    decreases metas.len(),
{
    let ids = register::ids_of(metas);
    if i == metas.len() - 1 {
        assert(ids[ids.len() - 1] == metas[i].id->0);
    } else {
        let init = metas.drop_last();
        assert(init[i] == metas[i]);
        lemma_ids_of_has(init, i);
        let before = register::ids_of(init);
        let j = choose|j: int| 0 <= j < before.len() && #[trigger] before[j] == metas[i].id->0;
        assert(ids[j] == before[j]);
    }
}

} // verus!
