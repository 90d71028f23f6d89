//! Mirrors of the location view: whoever applies the events that the authority tells
//! sees every block as the authority knows it.

use vstd::prelude::*;

use crate::base::listing;
use crate::base::queue;
use crate::control::admission;
use crate::control::admission::AdmitPlanView;
use crate::control::authority;
use crate::control::authority::AuthorityView;
use crate::control::blocks;
use crate::control::inactive::Node;
use crate::control::locations;
use crate::control::namespace;
use crate::control::namespace::{BlockKey, BlockKeyView, NamespaceKey};
use crate::control::pool;
use crate::control::pool::PoolView;
use crate::control::pool::RefAccounts;
use crate::control::reconcile;
use crate::control::reconcile::PeelView;
use crate::control::register;
use crate::control::tier;
use crate::control::upkeep;
use crate::control::view;
use crate::proto::{
    BlockMetaView, KvBlockIdView, LocationView, PoolKind, RefKind, Tier, ViewEventView, ViewKind,
};

verus! {

/// What a mirror shows of a block.
#[verifier::ext_equal]
pub struct Seen {
    pub locations: Seq<LocationView>,
    pub l3_present: bool,
}

/// What the authority knows of a block, as a mirror shows it.
pub open spec fn seen_at(a: AuthorityView, x: BlockKeyView) -> Option<Seen> {
    if a.has_block(x) {
        Some(
            Seen {
                locations: a.block(x).meta.locations,
                l3_present: a.block(x).meta.l3_present,
            },
        )
    } else {
        None
    }
}

/// What a mirror shows of a block after an event.
pub open spec fn after_event(s: Option<Seen>, x: BlockKeyView, ev: ViewEventView) -> Option<Seen> {
    if ev.id is Some && BlockKeyView::of(ev.id->0) == x {
        if ev.kind == ViewKind::Invalidated.spec_number() {
            None
        } else {
            Some(Seen { locations: ev.locations, l3_present: ev.l3_present })
        }
    } else {
        s
    }
}

/// What a mirror shows of a block after events, in order.
pub open spec fn after_events(s: Option<Seen>, x: BlockKeyView, evs: Seq<ViewEventView>) -> Option<
    Seen,
>
    decreases evs.len(),
{
    if evs.len() == 0 {
        s
    } else {
        after_event(after_events(s, x, evs.drop_last()), x, evs.last())
    }
}

/// A mirror of the first state that applies what was told since shows the second.
pub open spec fn mirrored(a: AuthorityView, b: AuthorityView) -> bool {
    &&& a.pending.is_prefix_of(b.pending)
    &&& forall|x: BlockKeyView| #[trigger]
        seen_at(b, x) == after_events(
            seen_at(a, x),
            x,
            b.pending.skip(a.pending.len() as int),
        )
}

/// Every record of a block names it by its address, or not at all.
pub open spec fn addressed(a: AuthorityView) -> bool {
    forall|x: BlockKeyView| #[trigger]
        a.has_block(x) && a.block(x).meta.id is Some ==> BlockKeyView::of(a.block(x).meta.id->0)
            == x
}

/// Events are applied one after the other.
proof fn lemma_after_concat(
    s: Option<Seen>,
    x: BlockKeyView,
    e1: Seq<ViewEventView>,
    e2: Seq<ViewEventView>,
)
    ensures
        after_events(s, x, e1 + e2) == after_events(after_events(s, x, e1), x, e2),
    decreases e2.len(),
{
    if e2.len() == 0 {
        assert(e1 + e2 =~= e1);
    } else {
        assert((e1 + e2).drop_last() =~= e1 + e2.drop_last());
        lemma_after_concat(s, x, e1, e2.drop_last());
    }
}

proof fn lemma_mirror_refl(a: AuthorityView)
    ensures
        mirrored(a, a),
{
    assert(a.pending.skip(a.pending.len() as int) =~= Seq::empty());
}

/// Mirrors follow through several changes.
pub proof fn mirrors_follow_on(a: AuthorityView, b: AuthorityView, c: AuthorityView)
    requires
        mirrored(a, b),
        mirrored(b, c),
    ensures
        mirrored(a, c),
{
    let e1 = b.pending.skip(a.pending.len() as int);
    let e2 = c.pending.skip(b.pending.len() as int);
    assert(c.pending.skip(a.pending.len() as int) =~= e1 + e2);
    assert forall|x: BlockKeyView| #[trigger] seen_at(c, x) == after_events(
        seen_at(a, x),
        x,
        c.pending.skip(a.pending.len() as int),
    ) by {
        assert(seen_at(b, x) == after_events(seen_at(a, x), x, e1));
        lemma_after_concat(seen_at(a, x), x, e1, e2);
    }
}

proof fn lemma_mirror(a: AuthorityView, b: AuthorityView, evs: Seq<ViewEventView>)
    requires
        b.pending == a.pending + evs,
        forall|x: BlockKeyView| #[trigger] seen_at(b, x) == after_events(seen_at(a, x), x, evs),
    ensures
        mirrored(a, b),
{
    assert(b.pending.skip(a.pending.len() as int) =~= evs);
}

proof fn lemma_one_event(s: Option<Seen>, x: BlockKeyView, ev: ViewEventView)
    ensures
        after_events(s, x, seq![ev]) == after_event(s, x, ev),
{
    assert(seq![ev].drop_last() =~= Seq::empty());
    assert(after_events(s, x, seq![ev].drop_last()) == s);
}

/// Withdrawing a location that is not there changes nothing.
proof fn lemma_absent_already(locations: Seq<LocationView>, tier: i32, node_id: Seq<char>)
    requires
        locations::first_on(locations, tier, node_id, 0) >= locations.len(),
    ensures
        locations::absent_from(locations, tier, node_id) == locations,
{
    lemma_none_on(locations, tier, node_id, 0);
    let f = |l: LocationView| !(l.tier == tier && l.node_id == node_id);
    assert forall|i: int| 0 <= i < locations.len() implies f(#[trigger] locations[i]) by {
    }
    queue::lemma_filter_all(locations, f);
}

proof fn lemma_none_on(locations: Seq<LocationView>, tier: i32, node_id: Seq<char>, i: int)
    requires
        0 <= i <= locations.len(),
        locations::first_on(locations, tier, node_id, i) >= locations.len(),
    ensures
        forall|j: int|
            i <= j < locations.len() ==> !((#[trigger] locations[j]).tier == tier
                && locations[j].node_id == node_id),
    decreases locations.len() - i,
{
    if i < locations.len() {
        lemma_none_on(locations, tier, node_id, i + 1);
    }
}

/// Mirrors follow a location that is published or withdrawn.
pub proof fn mirrors_follow_locations(
    a: AuthorityView,
    k: (Seq<char>, Seq<char>),
    raw_kind: i32,
    flat: Seq<u8>,
    l: LocationView,
    present: bool,
)
    requires
        addressed(a),
    ensures
        mirrored(a, a.location_published(k, raw_kind, flat, l, present).0),
        addressed(a.location_published(k, raw_kind, flat, l, present).0),
        mirrored(a, a.l3_set(k, raw_kind, flat, present).0),
        addressed(a.l3_set(k, raw_kind, flat, present).0),
        mirrored(a, a.relocated_to(k, raw_kind, flat, l).0),
        addressed(a.relocated_to(k, raw_kind, flat, l).0),
{
    lemma_mirror_refl(a);
    if a.block_fault("publish_location"@, k, raw_kind, flat) is None {
        let pk = pool::pool_kind_of(raw_kind)->Ok_0;
        let y = BlockKeyView { model_id: k.0, revision: k.1, pool_kind: pk, flat };
        let was = a.block(y).meta;
        assert(a.has_block(y));
        let b = a.location_published(k, raw_kind, flat, l, present).0;
        let had = locations::first_on(was.locations, l.tier, l.node_id, 0) < was.locations.len();
        lemma_touched(a, b, y);
        if present || had {
            lemma_told_move(a, b, y);
        } else {
            lemma_absent_already(was.locations, l.tier, l.node_id);
            assert(b.pending == a.pending);
            assert forall|x: BlockKeyView| #[trigger] seen_at(b, x) == after_events(
                seen_at(a, x),
                x,
                Seq::empty(),
            ) by {
            }
            assert(a.pending + Seq::<ViewEventView>::empty() =~= a.pending);
            lemma_mirror(a, b, Seq::empty());
        }
        let c = a.l3_set(k, raw_kind, flat, present).0;
        lemma_touched(a, c, y);
        lemma_told_move(a, c, y);
        let d = a.relocated_to(k, raw_kind, flat, l).0;
        lemma_touched(a, d, y);
        lemma_told_move(a, d, y);
    }
}

/// Only one block differs, and its record names the same address.
spec fn differs_at(a: AuthorityView, b: AuthorityView, y: BlockKeyView) -> bool {
    &&& a.has_block(y)
    &&& forall|x: BlockKeyView| #[trigger] b.has_block(x) == a.has_block(x)
    &&& forall|x: BlockKeyView|
        x != y && #[trigger] a.has_block(x) ==> b.block(x) == a.block(x)
    &&& b.block(y).meta.id == a.block(y).meta.id
}

proof fn lemma_touched(a: AuthorityView, b: AuthorityView, y: BlockKeyView)
    requires
        addressed(a),
        differs_at(a, b, y),
    ensures
        addressed(b),
{
    assert forall|x: BlockKeyView| #[trigger] b.has_block(x) && b.block(x).meta.id
        is Some implies BlockKeyView::of(b.block(x).meta.id->0) == x by {
        assert(a.has_block(x));
    }
}

proof fn lemma_told_move(a: AuthorityView, b: AuthorityView, y: BlockKeyView)
    requires
        addressed(a),
        differs_at(a, b, y),
        1 <= y.pool_kind,
        b.pending == a.pending + seq![
            authority::moved(y.model_id, y.revision, y.pool_kind, y.flat, b.block(y).meta),
        ],
    ensures
        mirrored(a, b),
{
    let ev = authority::moved(y.model_id, y.revision, y.pool_kind, y.flat, b.block(y).meta);
    assert(BlockKeyView::of(ev.id->0) == y);
    assert forall|x: BlockKeyView| #[trigger] seen_at(b, x) == after_events(
        seen_at(a, x),
        x,
        seq![ev],
    ) by {
        lemma_one_event(seen_at(a, x), x, ev);
        assert(b.has_block(x) == a.has_block(x));
    }
    lemma_mirror(a, b, seq![ev]);
}

/// The block is among those of a namespace that are gone.
spec fn is_gone(k: (Seq<char>, Seq<char>), gone: Seq<(i32, Seq<u8>)>, x: BlockKeyView) -> bool {
    x.space() == k && gone.contains((x.pool_kind, x.flat))
}

/// What is told to be gone is shown no more.
proof fn lemma_gone(
    s: Option<Seen>,
    k: (Seq<char>, Seq<char>),
    gone: Seq<(i32, Seq<u8>)>,
    x: BlockKeyView,
)
    requires
        forall|i: int| 0 <= i < gone.len() ==> 1 <= (#[trigger] gone[i]).0,
    ensures
        after_events(s, x, namespace::gone_events(k.0, k.1, gone)) == if is_gone(k, gone, x) {
            None
        } else {
            s
        },
    decreases gone.len(),
{
    let evs = namespace::gone_events(k.0, k.1, gone);
    if gone.len() > 0 {
        let rest = gone.drop_last();
        assert(evs.drop_last() =~= namespace::gone_events(k.0, k.1, rest));
        assert forall|i: int| 0 <= i < rest.len() implies 1 <= (#[trigger] rest[i]).0 by {
            assert(rest[i] == gone[i]);
        }
        lemma_gone(s, k, rest, x);
        let g = gone.last();
        assert(gone[gone.len() - 1] == g);
        let id = pool::id_or(None, k.0, k.1, g.0, g.1);
        assert(evs.last() == view::invalidated(id));
        assert((BlockKeyView::of(id) == x) == (x.space() == k && (x.pool_kind, x.flat) == g));
        if rest.contains((x.pool_kind, x.flat)) {
            let j = choose|j: int| 0 <= j < rest.len() && rest[j] == (x.pool_kind, x.flat);
            assert(gone[j] == (x.pool_kind, x.flat));
        }
        if gone.contains((x.pool_kind, x.flat)) && g != (x.pool_kind, x.flat) {
            let j = choose|j: int| 0 <= j < gone.len() && gone[j] == (x.pool_kind, x.flat);
            assert(rest[j] == (x.pool_kind, x.flat));
        }
    }
}

/// What makes room is what is gone.
proof fn lemma_dropped_exactly(p: PoolView, victims: Seq<Node>, f: Seq<u8>)
    ensures
        ({
            let (q, gone) = p.dropped(victims);
            &&& q.by_flat.contains_key(f) == (p.by_flat.contains_key(f) && !gone.contains(f))
            &&& q.by_flat.contains_key(f) ==> q.by_flat[f] == p.by_flat[f]
        }),
    decreases victims.len(),
{
    if victims.len() > 0 {
        lemma_dropped_exactly(p, victims.drop_last(), f);
        let (q, gone) = p.dropped(victims.drop_last());
        let (r, more) = q.dropped_one(victims.last());
        assert((gone + more).contains(f) == (gone.contains(f) || more.contains(f))) by {
            if gone.contains(f) {
                let j = choose|j: int| 0 <= j < gone.len() && gone[j] == f;
                assert((gone + more)[j] == f);
            }
            if more.contains(f) {
                let j = choose|j: int| 0 <= j < more.len() && more[j] == f;
                assert((gone + more)[gone.len() + j] == f);
            }
        }
        if more.len() > 0 {
            assert(more[0] == q.seq_to_flat[victims.last().seq]);
            assert(more.contains(f) == (more[0] == f)) by {
                if more[0] == f {
                    assert(more.contains(f));
                }
            }
        }
    }
}

proof fn lemma_evicted_exactly(p: PoolView, n: nat, f: Seq<u8>)
    ensures
        ({
            let (q, gone) = p.evicted(n);
            &&& q.by_flat.contains_key(f) == (p.by_flat.contains_key(f) && !gone.contains(f))
            &&& q.by_flat.contains_key(f) ==> q.by_flat[f] == p.by_flat[f]
        }),
{
    let (inactive, victims) = p.inactive.allocated(n, p.freq);
    lemma_dropped_exactly(PoolView { inactive, ..p }, victims, f);
}

proof fn lemma_tagged(pk: i32, flats: Seq<Seq<u8>>, g: (i32, Seq<u8>))
    ensures
        namespace::tagged(pk, flats).contains(g) == (g.0 == pk && flats.contains(g.1)),
{
    let t = namespace::tagged(pk, flats);
    if t.contains(g) {
        let j = choose|j: int| 0 <= j < t.len() && t[j] == g;
        assert(flats[j] == g.1);
    }
    if g.0 == pk && flats.contains(g.1) {
        let j = choose|j: int| 0 <= j < flats.len() && flats[j] == g.1;
        assert(t[j] == g);
    }
}

proof fn lemma_contains_concat<T>(s: Seq<T>, t: Seq<T>, g: T)
    ensures
        (s + t).contains(g) == (s.contains(g) || t.contains(g)),
{
    if s.contains(g) {
        let j = choose|j: int| 0 <= j < s.len() && s[j] == g;
        assert((s + t)[j] == g);
    }
    if t.contains(g) {
        let j = choose|j: int| 0 <= j < t.len() && t[j] == g;
        assert((s + t)[s.len() + j] == g);
    }
}

/// Blocks of a pool leave, and are told to be gone.
proof fn lemma_pool_left(
    a: AuthorityView,
    b: AuthorityView,
    k: (Seq<char>, Seq<char>),
    gone: Seq<(i32, Seq<u8>)>,
)
    requires
        addressed(a),
        forall|i: int| 0 <= i < gone.len() ==> 1 <= (#[trigger] gone[i]).0,
        b.pending == a.pending + namespace::gone_events(k.0, k.1, gone),
        forall|x: BlockKeyView| #[trigger]
            b.has_block(x) == (a.has_block(x) && !is_gone(k, gone, x)),
        forall|x: BlockKeyView| #[trigger] b.has_block(x) ==> b.block(x) == a.block(x),
    ensures
        mirrored(a, b),
        addressed(b),
{
    assert forall|x: BlockKeyView| #[trigger] seen_at(b, x) == after_events(
        seen_at(a, x),
        x,
        namespace::gone_events(k.0, k.1, gone),
    ) by {
        lemma_gone(seen_at(a, x), k, gone, x);
        assert(b.has_block(x) == (a.has_block(x) && !is_gone(k, gone, x)));
    }
    lemma_mirror(a, b, namespace::gone_events(k.0, k.1, gone));
    assert forall|x: BlockKeyView| #[trigger] b.has_block(x) && b.block(x).meta.id
        is Some implies BlockKeyView::of(b.block(x).meta.id->0) == x by {
        assert(a.has_block(x));
    }
}

/// Mirrors follow blocks that make room in a pool.
pub proof fn mirrors_follow_eviction(
    a: AuthorityView,
    k: (Seq<char>, Seq<char>),
    raw_kind: i32,
    n: nat,
)
    requires
        addressed(a),
    ensures
        mirrored(a, a.evicted_from(k, raw_kind, n).0),
        addressed(a.evicted_from(k, raw_kind, n).0),
{
    lemma_mirror_refl(a);
    if pool::pool_kind_of(raw_kind) is Ok && a.pool_at(k, pool::pool_kind_of(raw_kind)->Ok_0) is Some {
        let pk = pool::pool_kind_of(raw_kind)->Ok_0;
        let p = a.pool_at(k, pk)->0;
        let flats = p.evicted(n).1;
        let gone = namespace::tagged(pk, flats);
        let b = a.evicted_from(k, raw_kind, n).0;
        assert forall|x: BlockKeyView| #[trigger] b.has_block(x) == (a.has_block(x) && !is_gone(
            k,
            gone,
            x,
        )) && (b.has_block(x) ==> b.block(x) == a.block(x)) by {
            lemma_tagged(pk, flats, (x.pool_kind, x.flat));
            lemma_evicted_exactly(p, n, x.flat);
        }
        lemma_pool_left(a, b, k, gone);
    }
}

/// Mirrors follow blocks that make room in a namespace.
proof fn lemma_ns_evicted(a: AuthorityView, k: (Seq<char>, Seq<char>), n: nat)
    requires
        addressed(a),
        a.spaces.contains_key(k),
    ensures
        mirrored(a, a.ns_evicted(k, n)),
        addressed(a.ns_evicted(k, n)),
{
    let ns = a.spaces[k];
    let b = a.ns_evicted(k, n);
    let gone = ns.evicted(n).1;
    let ft = if ns.target is Some {
        ns.target->0.evicted(n).1
    } else {
        Seq::empty()
    };
    let left = if ft.len() >= n {
        0nat
    } else {
        (n - ft.len()) as nat
    };
    let fd = if ns.draft is Some {
        ns.draft->0.evicted(left).1
    } else {
        Seq::empty()
    };
    let t = PoolKind::Target.spec_number();
    let d = PoolKind::Draft.spec_number();
    assert(gone == namespace::tagged(t, ft) + namespace::tagged(d, fd));
    assert forall|x: BlockKeyView| #[trigger] b.has_block(x) == (a.has_block(x) && !is_gone(
        k,
        gone,
        x,
    )) && (b.has_block(x) ==> b.block(x) == a.block(x)) by {
        let g = (x.pool_kind, x.flat);
        lemma_contains_concat(namespace::tagged(t, ft), namespace::tagged(d, fd), g);
        lemma_tagged(t, ft, g);
        lemma_tagged(d, fd, g);
        if ns.target is Some {
            lemma_evicted_exactly(ns.target->0, n, x.flat);
        }
        if ns.draft is Some {
            lemma_evicted_exactly(ns.draft->0, left, x.flat);
        }
    }
    lemma_pool_left(a, b, k, gone);
}

proof fn lemma_reclaimed(
    a: AuthorityView,
    except: (Seq<char>, Seq<char>),
    want: int,
    names: Seq<(Seq<char>, Seq<char>)>,
)
    requires
        addressed(a),
        forall|i: int| 0 <= i < names.len() ==> a.spaces.contains_key(#[trigger] names[i]),
    ensures
        mirrored(a, a.reclaimed(except, want, names).0),
        addressed(a.reclaimed(except, want, names).0),
        a.reclaimed(except, want, names).0.spaces.dom() == a.spaces.dom(),
    decreases names.len(),
{
    if names.len() == 0 {
        lemma_mirror_refl(a);
    } else {
        assert forall|i: int| 0 <= i < names.drop_last().len() implies a.spaces.contains_key(
            #[trigger] names.drop_last()[i],
        ) by {
            assert(names.drop_last()[i] == names[i]);
        }
        lemma_reclaimed(a, except, want, names.drop_last());
        let (b, freed) = a.reclaimed(except, want, names.drop_last());
        let k = names.last();
        assert(a.spaces.contains_key(names[names.len() - 1]));
        assert(b.spaces.contains_key(k));
        let ns = b.spaces[k];
        if !(k == except || freed >= want || admission::borrowed_by(ns) <= 0) {
            let aim = if want - freed <= admission::borrowed_by(ns) {
                want - freed
            } else {
                admission::borrowed_by(ns)
            };
            let n = admission::blocks_for(aim, ns.block_bytes()) as nat;
            lemma_ns_evicted(b, k, n);
            mirrors_follow_on(a, b, b.ns_evicted(k, n));
            assert(b.ns_evicted(k, n).spaces.dom() =~= a.spaces.dom());
        }
    }
}

/// Mirrors follow the room that an admission makes.
proof fn lemma_admitted(a: AuthorityView, k: (Seq<char>, Seq<char>), plan: AdmitPlanView)
    requires
        addressed(a),
        a.spaces.dom().finite(),
    ensures
        mirrored(a, a.admitted(k, plan)),
        addressed(a.admitted(k, plan)),
        a.admitted(k, plan).spaces.dom() == a.spaces.dom(),
{
    lemma_mirror_refl(a);
    match plan {
        AdmitPlanView::Reject(_) => {},
        AdmitPlanView::Accept { own, reclaim } => {
            let b = if own > 0 && a.spaces.contains_key(k) {
                lemma_ns_evicted(a, k, own);
                a.ns_evicted(k, own)
            } else {
                a
            };
            assert(b.spaces.dom() =~= a.spaces.dom());
            if reclaim > 0 {
                listing::listing_lists::<NamespaceKey>(b.spaces.dom());
                assert forall|i: int| 0 <= i < b.names().len() implies b.spaces.contains_key(
                    #[trigger] b.names()[i],
                ) by {
                    assert(b.names().to_set().contains(b.names()[i]));
                }
                lemma_reclaimed(b, k, reclaim, b.names());
                mirrors_follow_on(a, b, b.reclaimed(k, reclaim, b.names()).0);
            }
        },
    }
}

/// What a mirror shows of a block of a pool.
spec fn seen_in(p: PoolView, f: Seq<u8>) -> Option<Seen> {
    if p.by_flat.contains_key(f) {
        Some(
            Seen {
                locations: p.by_flat[f].meta.locations,
                l3_present: p.by_flat[f].meta.l3_present,
            },
        )
    } else {
        None
    }
}

/// The records that have an address are all of one namespace.
spec fn all_of(metas: Seq<BlockMetaView>, k: (Seq<char>, Seq<char>)) -> bool {
    forall|i: int|
        0 <= i < metas.len() && (#[trigger] metas[i]).id is Some ==> (
        metas[i].id->0.model_id,
        metas[i].id->0.revision,
    ) == k
}

proof fn lemma_ids_fault(
    ids: Seq<KvBlockIdView>,
    first: KvBlockIdView,
    pk: i32,
    prefix: Seq<Seq<u8>>,
    i: int,
)
    requires
        register::ids_fault(ids, first, pk, prefix) is None,
        0 <= i < ids.len(),
    ensures
        register::id_fault(ids[i], first, pk, prefix) is None,
    decreases ids.len(),
{
    if i < ids.len() - 1 {
        lemma_ids_fault(ids.drop_last(), first, pk, prefix, i);
        assert(ids.drop_last()[i] == ids[i]);
    }
}

proof fn lemma_ids_of(metas: Seq<BlockMetaView>, i: int)
    requires
        0 <= i < metas.len(),
        metas[i].id is Some,
    ensures
        register::ids_of(metas).contains(metas[i].id->0),
    decreases metas.len(),
{
    let ids = register::ids_of(metas);
    if i == metas.len() - 1 {
        assert(ids[ids.len() - 1] == metas[i].id->0);
    } else {
        lemma_ids_of(metas.drop_last(), i);
        let rest = register::ids_of(metas.drop_last());
        assert(metas.drop_last()[i] == metas[i]);
        let j = choose|j: int| 0 <= j < rest.len() && rest[j] == metas[i].id->0;
        assert(ids[j] == metas[i].id->0);
    }
}

/// Every record of a batch in order is of its namespace and has a place in its chain.
pub proof fn batches_name_their_blocks(metas: Seq<BlockMetaView>, prefix: Seq<Seq<u8>>, i: int)
    requires
        register::batch_verdict(register::ids_of(metas), prefix) is Ok,
        0 <= i < metas.len(),
        metas[i].id is Some,
    ensures
        (metas[i].id->0.model_id, metas[i].id->0.revision) == register::batch_verdict(
            register::ids_of(metas),
            prefix,
        )->Ok_0.0,
        register::last_index(prefix, metas[i].id->0.block_hash) >= 0,
{
    let ids = register::ids_of(metas);
    let (k, pk) = register::batch_verdict(ids, prefix)->Ok_0;
    lemma_ids_of(metas, i);
    let j = choose|j: int| 0 <= j < ids.len() && ids[j] == metas[i].id->0;
    lemma_ids_fault(ids, ids[0], pk, prefix, j);
}

/// A batch in order is of one namespace.
proof fn lemma_batch_of(metas: Seq<BlockMetaView>, prefix: Seq<Seq<u8>>)
    requires
        register::batch_verdict(register::ids_of(metas), prefix) is Ok,
    ensures
        all_of(metas, register::batch_verdict(register::ids_of(metas), prefix)->Ok_0.0),
        1 <= register::batch_verdict(register::ids_of(metas), prefix)->Ok_0.1 <= 2,
{
    let ids = register::ids_of(metas);
    let (k, pk) = register::batch_verdict(ids, prefix)->Ok_0;
    assert forall|i: int| 0 <= i < metas.len() && (#[trigger] metas[i]).id is Some implies (
        metas[i].id->0.model_id,
        metas[i].id->0.revision,
    ) == k by {
        batches_name_their_blocks(metas, prefix, i);
    }
}

/// Mirrors follow what is stored: each record is told as it is stored.
proof fn lemma_stored(
    p: PoolView,
    node_id: Seq<char>,
    k: (Seq<char>, Seq<char>),
    pk: i32,
    prefix: Seq<Seq<u8>>,
    metas: Seq<BlockMetaView>,
    s: Option<Seen>,
    x: BlockKeyView,
)
    requires
        all_of(metas, k),
        1 <= pk <= 2,
        x.space() == k && x.pool_kind == pk ==> s == seen_in(p, x.flat),
    ensures
        ({
            let (q, evs, fresh) = register::stored_all(p, node_id, pk, prefix, metas);
            &&& x.space() == k && x.pool_kind == pk ==> after_events(s, x, evs) == seen_in(
                q,
                x.flat,
            )
            &&& !(x.space() == k && x.pool_kind == pk) ==> after_events(s, x, evs) == s
        }),
    decreases metas.len(),
{
    if metas.len() > 0 {
        let rest = metas.drop_last();
        assert forall|i: int| 0 <= i < rest.len() && (#[trigger] rest[i]).id is Some implies (
            rest[i].id->0.model_id,
            rest[i].id->0.revision,
        ) == k by {
            assert(rest[i] == metas[i]);
        }
        lemma_stored(p, node_id, k, pk, prefix, rest, s, x);
        let (q, evs, fresh) = register::stored_all(p, node_id, pk, prefix, rest);
        assert(metas[metas.len() - 1] == metas.last());
        match metas.last().id {
            None => {},
            Some(id) => {
                let meta = pool::settled(metas.last(), pk, node_id);
                let is_new = !q.by_flat.contains_key(id.block_hash);
                let ev = register::stored_event(meta, is_new);
                assert(BlockKeyView::of(ev.id->0) == (BlockKeyView {
                    model_id: k.0,
                    revision: k.1,
                    pool_kind: pk,
                    flat: id.block_hash,
                }));
                assert(evs.push(ev).drop_last() =~= evs);
            },
        }
    }
}

/// The records that are stored name their blocks.
proof fn lemma_stored_named(
    p: PoolView,
    node_id: Seq<char>,
    k: (Seq<char>, Seq<char>),
    pk: i32,
    prefix: Seq<Seq<u8>>,
    metas: Seq<BlockMetaView>,
    f: Seq<u8>,
)
    requires
        all_of(metas, k),
        1 <= pk <= 2,
        p.by_flat.contains_key(f) && p.by_flat[f].meta.id is Some ==> BlockKeyView::of(
            p.by_flat[f].meta.id->0,
        ) == (BlockKeyView { model_id: k.0, revision: k.1, pool_kind: pk, flat: f }),
    ensures
        ({
            let q = register::stored_all(p, node_id, pk, prefix, metas).0;
            q.by_flat.contains_key(f) && q.by_flat[f].meta.id is Some ==> BlockKeyView::of(
                q.by_flat[f].meta.id->0,
            ) == (BlockKeyView { model_id: k.0, revision: k.1, pool_kind: pk, flat: f })
        }),
    decreases metas.len(),
{
    if metas.len() > 0 {
        let rest = metas.drop_last();
        assert forall|i: int| 0 <= i < rest.len() && (#[trigger] rest[i]).id is Some implies (
            rest[i].id->0.model_id,
            rest[i].id->0.revision,
        ) == k by {
            assert(rest[i] == metas[i]);
        }
        lemma_stored_named(p, node_id, k, pk, prefix, rest, f);
        assert(metas[metas.len() - 1] == metas.last());
    }
}

/// Mirrors follow a registration, with the blocks that made room for it.
pub proof fn mirrors_follow_registration(
    a: AuthorityView,
    node_id: Seq<char>,
    prefix: Seq<Seq<u8>>,
    metas: Seq<BlockMetaView>,
)
    requires
        addressed(a),
        a.spaces.dom().finite(),
    ensures
        mirrored(a, a.registered(node_id, prefix, metas).0),
        addressed(a.registered(node_id, prefix, metas).0),
{
    lemma_mirror_refl(a);
    let v = register::batch_verdict(register::ids_of(metas), prefix);
    if metas.len() > 0 && v is Ok && a.spaces.contains_key(v->Ok_0.0) {
        let (k, pk) = v->Ok_0;
        let fresh = admission::unknown_flats(
            a.spaces[k].pool(pk),
            register::hashes_of(register::ids_of(metas)),
        ).len();
        let plan = a.plan(k, fresh)->Ok_0;
        lemma_admitted(a, k, plan);
        lemma_batch_of(metas, prefix);
        let c = a.admitted(k, plan);
        assert(c.spaces.contains_key(k));
        if plan.status() is Accepted && !register::not_durable(metas) {
            let b = c.batch_stored(k, pk, node_id, prefix, metas);
            let p = c.spaces[k].pool_or_new(pk);
            let (q, evs, n) = register::stored_all(p, node_id, pk, prefix, metas);
            assert(b.pool_at(k, pk) == Some(q));
            assert forall|x: BlockKeyView| #[trigger] seen_at(b, x) == after_events(
                seen_at(c, x),
                x,
                evs,
            ) by {
                lemma_stored(p, node_id, k, pk, prefix, metas, seen_at(c, x), x);
            }
            lemma_mirror(c, b, evs);
            mirrors_follow_on(a, c, b);
            assert forall|x: BlockKeyView| #[trigger] b.has_block(x) && b.block(x).meta.id
                is Some implies BlockKeyView::of(b.block(x).meta.id->0) == x by {
                if x.space() == k && x.pool_kind == pk {
                    if p.by_flat.contains_key(x.flat) {
                        assert(c.has_block(x));
                    }
                    lemma_stored_named(p, node_id, k, pk, prefix, metas, x.flat);
                } else {
                    assert(c.has_block(x));
                }
            }
        }
    }
}

/// Mirrors follow a block that is discarded.
pub proof fn mirrors_follow_discard(a: AuthorityView, id: KvBlockIdView)
    requires
        addressed(a),
    ensures
        mirrored(a, a.discarded_one(id).0),
        addressed(a.discarded_one(id).0),
{
    lemma_mirror_refl(a);
    let k = (id.model_id, id.revision);
    let b = a.discarded_one(id).0;
    if a.discarded_one(id).1 == Ok::<bool, Seq<char>>(true) {
        let pk = pool::pool_kind_of(id.pool_kind)->Ok_0;
        let gone = seq![(pk, id.block_hash)];
        assert(namespace::gone_events(k.0, k.1, gone) =~= seq![
            view::invalidated(pool::id_or(None, k.0, k.1, pk, id.block_hash)),
        ]);
        assert forall|x: BlockKeyView| #[trigger] b.has_block(x) == (a.has_block(x) && !is_gone(
            k,
            gone,
            x,
        )) && (b.has_block(x) ==> b.block(x) == a.block(x)) by {
            assert(gone.contains((x.pool_kind, x.flat)) == ((x.pool_kind, x.flat) == gone[0]));
        }
        lemma_pool_left(a, b, k, gone);
    } else {
        assert forall|x: BlockKeyView| #[trigger] b.has_block(x) == a.has_block(x) && (b.has_block(
            x,
        ) ==> b.block(x) == a.block(x)) by {
        }
        lemma_same_view(a, b);
    }
}

/// Nothing that a mirror shows differs, and nothing is told.
spec fn same_view(a: AuthorityView, b: AuthorityView) -> bool {
    &&& b.pending == a.pending
    &&& forall|x: BlockKeyView| #[trigger] b.has_block(x) == a.has_block(x)
    &&& forall|x: BlockKeyView| #[trigger] b.has_block(x) ==> b.block(x) == a.block(x)
}

proof fn lemma_same_view(a: AuthorityView, b: AuthorityView)
    requires
        addressed(a),
        same_view(a, b),
    ensures
        mirrored(a, b),
        addressed(b),
{
    assert(a.pending + Seq::<ViewEventView>::empty() =~= a.pending);
    assert forall|x: BlockKeyView| #[trigger] seen_at(b, x) == after_events(
        seen_at(a, x),
        x,
        Seq::empty(),
    ) by {
        assert(b.has_block(x) == a.has_block(x));
    }
    lemma_mirror(a, b, Seq::empty());
    assert forall|x: BlockKeyView| #[trigger] b.has_block(x) && b.block(x).meta.id
        is Some implies BlockKeyView::of(b.block(x).meta.id->0) == x by {
        assert(a.has_block(x));
    }
}

/// Mirrors follow a model that leaves.
pub proof fn mirrors_follow_deregistration(
    a: AuthorityView,
    model_id: Seq<char>,
    revision: Seq<char>,
)
    requires
        addressed(a),
        a.finite(),
    ensures
        mirrored(a, a.model_deregistered(model_id, revision).0),
        addressed(a.model_deregistered(model_id, revision).0),
{
    lemma_mirror_refl(a);
    let k = (model_id, revision);
    if a.model_deregistered(model_id, revision).1 is Ok {
        let b = a.model_deregistered(model_id, revision).0;
        let ns = a.spaces[k];
        let gone = authority::ns_blocks(ns);
        assert forall|x: BlockKeyView| #[trigger] b.has_block(x) == (a.has_block(x) && !is_gone(
            k,
            gone,
            x,
        )) && (b.has_block(x) ==> b.block(x) == a.block(x)) by {
            lemma_ns_blocks(a, k, (x.pool_kind, x.flat));
        }
        lemma_pool_left(a, b, k, gone);
    }
}

/// The blocks of a namespace are those of its pools.
proof fn lemma_ns_blocks(a: AuthorityView, k: (Seq<char>, Seq<char>), g: (i32, Seq<u8>))
    requires
        a.finite(),
        a.spaces.contains_key(k),
    ensures
        authority::ns_blocks(a.spaces[k]).contains(g) == (a.pool_at(k, g.0) is Some && a.pool_at(
            k,
            g.0,
        )->0.by_flat.contains_key(g.1)),
{
    let ns = a.spaces[k];
    let t = PoolKind::Target.spec_number();
    let d = PoolKind::Draft.spec_number();
    lemma_contains_concat(
        namespace::tagged(t, authority::flats_of(ns.target)),
        namespace::tagged(d, authority::flats_of(ns.draft)),
        g,
    );
    lemma_tagged(t, authority::flats_of(ns.target), g);
    lemma_tagged(d, authority::flats_of(ns.draft), g);
    assert(a.pool_at(k, t) == ns.target);
    assert(a.pool_at(k, d) == ns.draft);
    lemma_flats(ns.target, g.1);
    lemma_flats(ns.draft, g.1);
}

proof fn lemma_flats(p: Option<PoolView>, f: Seq<u8>)
    requires
        p is Some ==> p->0.by_flat.dom().finite(),
    ensures
        authority::flats_of(p).contains(f) == (p is Some && p->0.by_flat.contains_key(f)),
{
    if p is Some {
        listing::listing_lists::<Vec<u8>>(p->0.by_flat.dom());
        assert(authority::flats_of(p).to_set().contains(f) == p->0.by_flat.dom().contains(f));
    }
}

proof fn lemma_view_trans(a: AuthorityView, b: AuthorityView, c: AuthorityView)
    requires
        same_view(a, b),
        same_view(b, c),
    ensures
        same_view(a, c),
{
    assert forall|x: BlockKeyView| #[trigger] c.has_block(x) == a.has_block(x) by {
        assert(c.has_block(x) == b.has_block(x));
        assert(b.has_block(x) == a.has_block(x));
    }
    assert forall|x: BlockKeyView| #[trigger] c.has_block(x) implies c.block(x) == a.block(x) by {
        assert(c.has_block(x) == b.has_block(x));
        assert(b.has_block(x));
    }
}

proof fn lemma_released(a: AuthorityView, b: BlockKeyView, kind: RefKind, n: i64)
    ensures
        same_view(a, a.released(b, kind, n)),
        a.released(b, kind, n).spaces.dom() == a.spaces.dom(),
{
    assert(a.released(b, kind, n).spaces.dom() =~= a.spaces.dom());
}

proof fn lemma_released_all(
    a: AuthorityView,
    held: Map<BlockKeyView, RefAccounts>,
    blocks: Seq<BlockKeyView>,
)
    ensures
        same_view(a, a.released_all(held, blocks)),
        a.released_all(held, blocks).spaces.dom() == a.spaces.dom(),
    decreases blocks.len(),
{
    if blocks.len() > 0 {
        let b = blocks.last();
        let c = a.released_all(held, blocks.drop_last());
        lemma_released_all(a, held, blocks.drop_last());
        lemma_released(c, b, RefKind::Request, held[b].request);
        let d = c.released(b, RefKind::Request, held[b].request);
        lemma_released(d, b, RefKind::Writeback, held[b].writeback);
        let e = d.released(b, RefKind::Writeback, held[b].writeback);
        lemma_view_trans(a, c, d);
        lemma_view_trans(a, d, e);
    }
}

proof fn lemma_taken_off(a: AuthorityView, node_id: Seq<char>, blocks: Seq<BlockKeyView>)
    requires
        addressed(a),
        forall|i: int| 0 <= i < blocks.len() ==> a.has_block(#[trigger] blocks[i]),
    ensures
        mirrored(a, a.taken_off(node_id, blocks).0),
        addressed(a.taken_off(node_id, blocks).0),
        forall|x: BlockKeyView| #[trigger]
            a.taken_off(node_id, blocks).0.has_block(x) == a.has_block(x),
    decreases blocks.len(),
{
    if blocks.len() == 0 {
        lemma_mirror_refl(a);
    } else {
        let before = blocks.drop_last();
        assert forall|i: int| 0 <= i < before.len() implies a.has_block(#[trigger] before[i]) by {
            assert(before[i] == blocks[i]);
        }
        lemma_taken_off(a, node_id, before);
        let c = a.taken_off(node_id, before).0;
        let b = a.taken_off(node_id, blocks).0;
        let y = blocks.last();
        assert(a.has_block(blocks[blocks.len() - 1]));
        assert(c.has_block(y));
        if tier::on_tier_of(c.block(y).meta.locations, Tier::L0, node_id) {
            assert forall|x: BlockKeyView| #[trigger] b.has_block(x) == c.has_block(x) by {
            }
            assert(differs_at(c, b, y));
            lemma_touched(c, b, y);
            lemma_told_move(c, b, y);
            mirrors_follow_on(a, c, b);
            assert forall|x: BlockKeyView| #[trigger] b.has_block(x) == a.has_block(x) by {
                assert(c.has_block(x) == a.has_block(x));
            }
        }
    }
}

proof fn lemma_unmarked_all(
    a: AuthorityView,
    node_id: Seq<char>,
    names: Seq<(Seq<char>, Seq<char>)>,
)
    requires
        forall|i: int| 0 <= i < names.len() ==> a.spaces.contains_key(#[trigger] names[i]),
    ensures
        same_view(a, a.unmarked_all(node_id, names)),
        a.unmarked_all(node_id, names).spaces.dom() == a.spaces.dom(),
    decreases names.len(),
{
    if names.len() > 0 {
        let before = names.drop_last();
        assert forall|i: int| 0 <= i < before.len() implies a.spaces.contains_key(
            #[trigger] before[i],
        ) by {
            assert(before[i] == names[i]);
        }
        lemma_unmarked_all(a, node_id, before);
        let c = a.unmarked_all(node_id, before);
        let b = a.unmarked_all(node_id, names);
        assert(a.spaces.contains_key(names[names.len() - 1]));
        assert(b.spaces.dom() =~= c.spaces.dom());
        lemma_view_trans(a, c, b);
    }
}

/// Mirrors follow a node that is lost.
pub proof fn mirrors_follow_a_lost_node(a: AuthorityView, node_id: Seq<char>)
    requires
        addressed(a),
        a.finite(),
    ensures
        mirrored(a, a.node_lost(node_id).0),
        addressed(a.node_lost(node_id).0),
{
    lemma_mirror_refl(a);
    if node_id.len() > 0 {
        let held = if a.node_refs.contains_key(node_id) {
            a.node_refs[node_id]
        } else {
            Map::empty()
        };
        let a0 = AuthorityView { node_refs: a.node_refs.remove(node_id), ..a };
        assert(same_view(a, a0));
        let list = listing::listing::<BlockKey>(held.dom());
        let a1 = a0.released_all(held, list);
        lemma_released_all(a0, held, list);
        lemma_view_trans(a, a0, a1);
        lemma_same_view(a, a1);
        assert(a0.finite()) by {
            assert forall|k: (Seq<char>, Seq<char>), pk: i32| (#[trigger] a0.pool_at(k, pk))
                is Some implies a0.pool_at(k, pk)->0.by_flat.dom().finite() by {
                assert(a.pool_at(k, pk) is Some);
            }
        }
        lemma_released_finite(a0, held, list);
        let blocks = a1.all_blocks();
        assert forall|i: int| 0 <= i < blocks.len() implies a1.has_block(#[trigger] blocks[i]) by {
            blocks::all_blocks_known(a1, i);
        }
        lemma_taken_off(a1, node_id, blocks);
        let b1 = a1.taken_off(node_id, blocks).0;
        lemma_taken_off_dom(a1, node_id, blocks);
        listing::listing_lists::<NamespaceKey>(b1.spaces.dom());
        assert forall|i: int| 0 <= i < b1.names().len() implies b1.spaces.contains_key(
            #[trigger] b1.names()[i],
        ) by {
            assert(b1.names().to_set().contains(b1.names()[i]));
        }
        lemma_unmarked_all(b1, node_id, b1.names());
        let b = b1.unmarked_all(node_id, b1.names());
        lemma_same_view(b1, b);
        mirrors_follow_on(a, a1, b1);
        mirrors_follow_on(a, b1, b);
    }
}

proof fn lemma_released_finite(
    a: AuthorityView,
    held: Map<BlockKeyView, RefAccounts>,
    blocks: Seq<BlockKeyView>,
)
    requires
        a.finite(),
    ensures
        a.released_all(held, blocks).finite(),
{
    upkeep::releasing_keeps_records(a, held, blocks);
    let b = a.released_all(held, blocks);
    assert forall|k: (Seq<char>, Seq<char>), pk: i32| (#[trigger] b.pool_at(k, pk))
        is Some implies b.pool_at(k, pk)->0.by_flat.dom().finite() by {
        assert(a.pool_at(k, pk) is Some);
    }
}

proof fn lemma_taken_off_dom(a: AuthorityView, node_id: Seq<char>, blocks: Seq<BlockKeyView>)
    requires
        forall|i: int| 0 <= i < blocks.len() ==> a.has_block(#[trigger] blocks[i]),
    ensures
        a.taken_off(node_id, blocks).0.spaces.dom() == a.spaces.dom(),
    decreases blocks.len(),
{
    if blocks.len() > 0 {
        let before = blocks.drop_last();
        assert forall|i: int| 0 <= i < before.len() implies a.has_block(#[trigger] before[i]) by {
            assert(before[i] == blocks[i]);
        }
        lemma_taken_off_dom(a, node_id, before);
        assert(a.has_block(blocks[blocks.len() - 1]));
        assert(a.taken_off(node_id, blocks).0.spaces.dom() =~= a.spaces.dom());
    }
}

/// A mirror that applies the update which tells a change shows the state after it.
pub proof fn updates_keep_mirrors(a: AuthorityView, b: AuthorityView, x: BlockKeyView)
    requires
        a.pending.len() == 0,
        mirrored(a, b),
    ensures
        match b.told_events().1 {
            Some(u) => seen_at(b.told_events().0, x) == after_events(seen_at(a, x), x, u.events),
            None => seen_at(b, x) == seen_at(a, x),
        },
        b.told_events().0.pending.len() == 0,
{
    assert(b.pending.skip(0) =~= b.pending);
    assert(seen_at(b, x) == after_events(seen_at(a, x), x, b.pending));
    let c = b.told_events().0;
    assert(seen_at(c, x) == seen_at(b, x));
}

/// What a peel found is consistent with the pool before it.
spec fn peels_fit(p: PoolView, peels: Seq<PeelView>) -> bool {
    forall|i: int|
        0 <= i < peels.len() ==> p.by_flat.contains_key((#[trigger] peels[i]).flat)
            && peels[i].durable == upkeep::is_durable(p.by_flat[peels[i].flat].meta)
}

/// Some peel is of the block.
spec fn peels_block(peels: Seq<PeelView>, f: Seq<u8>) -> bool {
    exists|i: int| 0 <= i < peels.len() && (#[trigger] peels[i]).flat == f
}

/// Where no copy is in memory, nothing is to cool.
proof fn lemma_cool_already(locations: Seq<LocationView>)
    requires
        !tier::on_tier(locations, Tier::L0),
        !tier::on_tier(locations, Tier::L1),
    ensures
        reconcile::cooled(locations) == locations,
{
    let f = |l: LocationView|
        l.tier != Tier::L0.spec_number() && l.tier != Tier::L1.spec_number();
    assert forall|i: int| 0 <= i < locations.len() implies f(#[trigger] locations[i]) by {
    }
    queue::lemma_filter_all(locations, f);
}

/// Mirrors follow the durable blocks that leave memory.
proof fn lemma_peeled_view(
    p: PoolView,
    k: (Seq<char>, Seq<char>),
    pk: i32,
    victims: Seq<Node>,
    x: BlockKeyView,
)
    requires
        1 <= pk,
        x.space() == k,
        x.pool_kind == pk,
        forall|f: Seq<u8>| #[trigger]
            p.by_flat.contains_key(f) && p.by_flat[f].meta.id is Some ==> BlockKeyView::of(
                p.by_flat[f].meta.id->0,
            ) == (BlockKeyView { flat: f, ..x }),
    ensures
        ({
            let (q, peels) = reconcile::peeled(p, k, pk, victims);
            let told = after_events(seen_in(p, x.flat), x, reconcile::peel_events(k, pk, peels));
            &&& peels_fit(p, peels)
            &&& q.by_flat.dom() == p.by_flat.dom()
            &&& !p.by_flat.contains_key(x.flat) ==> told is None
            &&& p.by_flat.contains_key(x.flat) ==> q.by_flat[x.flat].meta.id
                == p.by_flat[x.flat].meta.id
            &&& p.by_flat.contains_key(x.flat) ==> upkeep::is_durable(q.by_flat[x.flat].meta)
                == upkeep::is_durable(p.by_flat[x.flat].meta)
            &&& p.by_flat.contains_key(x.flat) && upkeep::is_durable(p.by_flat[x.flat].meta)
                ==> told == seen_in(q, x.flat)
            &&& p.by_flat.contains_key(x.flat) && !upkeep::is_durable(p.by_flat[x.flat].meta)
                ==> told == seen_in(p, x.flat)
            &&& p.by_flat.contains_key(x.flat) && !peels_block(peels, x.flat)
                ==> q.by_flat[x.flat] == p.by_flat[x.flat]
        }),
    decreases victims.len(),
{
    if victims.len() > 0 {
        lemma_peeled_view(p, k, pk, victims.drop_last(), x);
        upkeep::peeling_cools(p, k, pk, victims.drop_last());
        let (q, peels) = reconcile::peeled(p, k, pk, victims.drop_last());
        let (r, peel) = reconcile::peeled_one(q, k, pk, victims.last());
        match peel {
            None => {},
            Some(y) => {
                let all = peels.push(y);
                let was = q.by_flat[y.flat].meta;
                assert(p.by_flat.contains_key(y.flat));
                upkeep::cooling_keeps_durable(was.locations);
                upkeep::cooling_keeps_durable(p.by_flat[y.flat].meta.locations);
                assert(upkeep::is_durable(was) == upkeep::is_durable(p.by_flat[y.flat].meta));
                assert(all.drop_last() =~= peels);
                assert(r.by_flat.dom() =~= p.by_flat.dom());
                assert forall|i: int| 0 <= i < all.len() implies p.by_flat.contains_key(
                    (#[trigger] all[i]).flat,
                ) && all[i].durable == upkeep::is_durable(p.by_flat[all[i].flat].meta) by {
                    if i < peels.len() {
                        assert(all[i] == peels[i]);
                    }
                }
                let rest = reconcile::peel_events(k, pk, peels);
                let ev = authority::moved(k.0, k.1, pk, y.flat, y.meta);
                assert(rest.push(ev).drop_last() =~= rest);
                if peels_block(peels, x.flat) {
                    let i = choose|i: int| 0 <= i < peels.len() && (#[trigger] peels[i]).flat
                        == x.flat;
                    assert(all[i].flat == x.flat);
                }
                assert(all[peels.len() as int].flat == y.flat);
                assert(was.id == p.by_flat[y.flat].meta.id) by {
                    assert(upkeep::cooler(p.by_flat[y.flat].meta, was));
                }
                assert(BlockKeyView::of(ev.id->0) == (BlockKeyView { flat: y.flat, ..x }));
                if !y.changed {
                    lemma_cool_already(was.locations);
                }
            },
        }
    }
}

/// What is cast off is exactly what was peeled without a durable copy.
proof fn lemma_cast_off(p: PoolView, q: PoolView, peels: Seq<PeelView>, f: Seq<u8>)
    requires
        peels_fit(p, peels),
        q.by_flat.dom() == p.by_flat.dom(),
    ensures
        ({
            let (r, ids, flats) = reconcile::cast_off(q, peels);
            &&& r.by_flat.contains_key(f) == (q.by_flat.contains_key(f) && !flats.contains(f))
            &&& r.by_flat.contains_key(f) ==> r.by_flat[f] == q.by_flat[f]
            &&& flats.contains(f) == (peels_block(peels, f) && !upkeep::is_durable(
                p.by_flat[f].meta,
            ))
        }),
    decreases peels.len(),
{
    if peels.len() > 0 {
        let before = peels.drop_last();
        assert forall|i: int| 0 <= i < before.len() implies p.by_flat.contains_key(
            (#[trigger] before[i]).flat,
        ) && before[i].durable == upkeep::is_durable(p.by_flat[before[i].flat].meta) by {
            assert(before[i] == peels[i]);
        }
        lemma_cast_off(p, q, before, f);
        let y = peels.last();
        assert(peels[peels.len() - 1] == y);
        lemma_cast_off(p, q, before, y.flat);
        let (c, ids, flats) = reconcile::cast_off(q, before);
        assert(flats.push(y.flat).contains(f) == (flats.contains(f) || f == y.flat)) by {
            if flats.contains(f) {
                let j = choose|j: int| 0 <= j < flats.len() && flats[j] == f;
                assert(flats.push(y.flat)[j] == f);
            }
            if f == y.flat {
                assert(flats.push(y.flat)[flats.len() as int] == f);
            }
        }
        assert(peels_block(peels, f) == (peels_block(before, f) || y.flat == f)) by {
            if peels_block(before, f) {
                let j = choose|j: int| 0 <= j < before.len() && (#[trigger] before[j]).flat == f;
                assert(peels[j].flat == f);
            }
            if peels_block(peels, f) && y.flat != f {
                let j = choose|j: int| 0 <= j < peels.len() && (#[trigger] peels[j]).flat == f;
                assert(before[j].flat == f);
            }
            if y.flat == f {
                assert(peels[peels.len() - 1].flat == f);
            }
        }
    }
}

/// Events about a pool do not touch what is elsewhere.
proof fn lemma_peel_elsewhere(
    k: (Seq<char>, Seq<char>),
    pk: i32,
    peels: Seq<PeelView>,
    s: Option<Seen>,
    x: BlockKeyView,
)
    requires
        1 <= pk,
        x.space() != k || x.pool_kind != pk,
        forall|i: int|
            0 <= i < peels.len() ==> ((#[trigger] peels[i]).meta.id is Some ==> BlockKeyView::of(
                peels[i].meta.id->0,
            ) == (BlockKeyView {
                model_id: k.0,
                revision: k.1,
                pool_kind: pk,
                flat: peels[i].flat,
            })),
    ensures
        after_events(s, x, reconcile::peel_events(k, pk, peels)) == s,
    decreases peels.len(),
{
    if peels.len() > 0 {
        let before = peels.drop_last();
        assert forall|i: int| 0 <= i < before.len() implies ((#[trigger] before[i]).meta.id
            is Some ==> BlockKeyView::of(before[i].meta.id->0) == (BlockKeyView {
            model_id: k.0,
            revision: k.1,
            pool_kind: pk,
            flat: before[i].flat,
        })) by {
            assert(before[i] == peels[i]);
        }
        lemma_peel_elsewhere(k, pk, before, s, x);
        let y = peels.last();
        assert(peels[peels.len() - 1] == y);
        let rest = reconcile::peel_events(k, pk, before);
        let ev = authority::moved(k.0, k.1, pk, y.flat, y.meta);
        assert(rest.push(ev).drop_last() =~= rest);
        assert(BlockKeyView::of(ev.id->0) != x);
    }
}

/// The records that were peeled name their blocks.
proof fn lemma_peels_named(
    p: PoolView,
    k: (Seq<char>, Seq<char>),
    pk: i32,
    victims: Seq<Node>,
    i: int,
)
    requires
        0 <= i < reconcile::peeled(p, k, pk, victims).1.len(),
    ensures
        ({
            let y = reconcile::peeled(p, k, pk, victims).1[i];
            p.by_flat.contains_key(y.flat) && y.meta.id == p.by_flat[y.flat].meta.id
        }),
    decreases victims.len(),
{
    if victims.len() > 0 {
        let (q, peels) = reconcile::peeled(p, k, pk, victims.drop_last());
        upkeep::peeling_cools(p, k, pk, victims.drop_last());
        if i < peels.len() {
            lemma_peels_named(p, k, pk, victims.drop_last(), i);
            assert(reconcile::peeled(p, k, pk, victims).1[i] == peels[i]);
        } else {
            let (r, peel) = reconcile::peeled_one(q, k, pk, victims.last());
            let f = peel->0.flat;
            assert(p.by_flat.contains_key(f));
            assert(upkeep::cooler(p.by_flat[f].meta, q.by_flat[f].meta));
        }
    }
}

/// Mirrors follow a collection of cold blocks.
pub proof fn mirrors_follow_collection(
    a: AuthorityView,
    k: (Seq<char>, Seq<char>),
    raw_kind: i32,
    n: nat,
)
    requires
        addressed(a),
    ensures
        mirrored(a, a.collected(k, raw_kind, n).0),
        addressed(a.collected(k, raw_kind, n).0),
{
    lemma_mirror_refl(a);
    if n > 0 && pool::pool_kind_of(raw_kind) is Ok && a.spaces.contains_key(k)
        && a.spaces[k].pool(pool::pool_kind_of(raw_kind)->Ok_0) is Some {
        let pk = pool::pool_kind_of(raw_kind)->Ok_0;
        let p = a.spaces[k].pool(pk)->0;
        let (inactive, victims) = p.inactive.allocated(n, p.freq);
        let p0 = PoolView { inactive, ..p };
        let (q, peels) = reconcile::peeled(p0, k, pk, victims);
        let (r, ids, flats) = reconcile::cast_off(q, peels);
        let e1 = reconcile::peel_events(k, pk, peels);
        let gone = namespace::tagged(pk, flats);
        let e2 = namespace::gone_events(k.0, k.1, gone);
        let b = a.collected(k, raw_kind, n).0;
        upkeep::reentering_keeps_records(r, peels);
        assert(b.pending =~= a.pending + (e1 + e2));
        assert forall|f: Seq<u8>| #[trigger]
            p0.by_flat.contains_key(f) && p0.by_flat[f].meta.id is Some implies BlockKeyView::of(
            p0.by_flat[f].meta.id->0,
        ) == (BlockKeyView { model_id: k.0, revision: k.1, pool_kind: pk, flat: f }) by {
            let y = BlockKeyView { model_id: k.0, revision: k.1, pool_kind: pk, flat: f };
            assert(a.has_block(y));
        }
        assert forall|x: BlockKeyView| #[trigger] seen_at(b, x) == after_events(
            seen_at(a, x),
            x,
            e1 + e2,
        ) by {
            lemma_after_concat(seen_at(a, x), x, e1, e2);
            lemma_gone(after_events(seen_at(a, x), x, e1), k, gone, x);
            lemma_tagged(pk, flats, (x.pool_kind, x.flat));
            if x.space() == k && x.pool_kind == pk {
                lemma_peeled_view(p0, k, pk, victims, x);
                lemma_cast_off(p0, q, peels, x.flat);
            } else {
                assert forall|i: int| 0 <= i < peels.len() implies ((#[trigger] peels[i]).meta.id
                    is Some ==> BlockKeyView::of(peels[i].meta.id->0) == (BlockKeyView {
                    model_id: k.0,
                    revision: k.1,
                    pool_kind: pk,
                    flat: peels[i].flat,
                })) by {
                    lemma_peels_named(p0, k, pk, victims, i);
                }
                lemma_peel_elsewhere(k, pk, peels, seen_at(a, x), x);
            }
        }
        lemma_mirror(a, b, e1 + e2);
        assert forall|x: BlockKeyView| #[trigger] b.has_block(x) && b.block(x).meta.id
            is Some implies BlockKeyView::of(b.block(x).meta.id->0) == x by {
            if x.space() == k && x.pool_kind == pk {
                lemma_peeled_view(p0, k, pk, victims, x);
                lemma_cast_off(p0, q, peels, x.flat);
                assert(a.has_block(x));
            } else {
                assert(a.has_block(x));
            }
        }
    }
}

/// What a mirror shows of a pool's block after the pool's events.
proof fn lemma_pool_events(
    k: (Seq<char>, Seq<char>),
    pk: i32,
    p: Option<PoolView>,
    flats: Seq<Seq<u8>>,
    s: Option<Seen>,
    x: BlockKeyView,
)
    requires
        p is Some,
        1 <= pk,
        forall|i: int| 0 <= i < flats.len() ==> p->0.by_flat.contains_key(#[trigger] flats[i]),
        forall|f: Seq<u8>| #[trigger]
            p->0.by_flat.contains_key(f) && p->0.by_flat[f].meta.id is Some ==> BlockKeyView::of(
                p->0.by_flat[f].meta.id->0,
            ) == (BlockKeyView { model_id: k.0, revision: k.1, pool_kind: pk, flat: f }),
    ensures
        after_events(
            s,
            x,
            flats.map_values(
                |flat: Seq<u8>| authority::present_event(k, pk, flat, p->0.by_flat[flat].meta),
            ),
        ) == if x.space() == k && x.pool_kind == pk && flats.contains(x.flat) {
            seen_in(p->0, x.flat)
        } else {
            s
        },
    decreases flats.len(),
{
    let f = |flat: Seq<u8>| authority::present_event(k, pk, flat, p->0.by_flat[flat].meta);
    let evs = flats.map_values(f);
    if flats.len() > 0 {
        let rest = flats.drop_last();
        assert forall|i: int| 0 <= i < rest.len() implies p->0.by_flat.contains_key(
            #[trigger] rest[i],
        ) by {
            assert(rest[i] == flats[i]);
        }
        lemma_pool_events(k, pk, p, rest, s, x);
        assert(evs.drop_last() =~= rest.map_values(f));
        let last = flats.last();
        assert(p->0.by_flat.contains_key(flats[flats.len() - 1]));
        assert(evs.last() == authority::present_event(k, pk, last, p->0.by_flat[last].meta));
        assert(BlockKeyView::of(evs.last().id->0) == (BlockKeyView {
            model_id: k.0,
            revision: k.1,
            pool_kind: pk,
            flat: last,
        }));
        if rest.contains(x.flat) {
            let j = choose|j: int| 0 <= j < rest.len() && rest[j] == x.flat;
            assert(flats[j] == x.flat);
        }
        if flats.contains(x.flat) && last != x.flat {
            let j = choose|j: int| 0 <= j < flats.len() && flats[j] == x.flat;
            assert(rest[j] == x.flat);
        }
    }
}

proof fn lemma_space_events(
    a: AuthorityView,
    k: (Seq<char>, Seq<char>),
    s: Option<Seen>,
    x: BlockKeyView,
)
    requires
        addressed(a),
        a.finite(),
        a.spaces.contains_key(k),
    ensures
        after_events(s, x, authority::ns_events(k, a.spaces[k])) == if x.space() == k
            && a.has_block(x) {
            seen_at(a, x)
        } else {
            s
        },
{
    let ns = a.spaces[k];
    let t = PoolKind::Target.spec_number();
    let d = PoolKind::Draft.spec_number();
    let e1 = authority::pool_events(k, t, ns.target);
    let e2 = authority::pool_events(k, d, ns.draft);
    lemma_after_concat(s, x, e1, e2);
    assert(a.pool_at(k, t) == ns.target);
    assert(a.pool_at(k, d) == ns.draft);
    lemma_pool_shown(a, k, t, s, x);
    lemma_pool_shown(a, k, d, after_events(s, x, e1), x);
}

proof fn lemma_pool_shown(
    a: AuthorityView,
    k: (Seq<char>, Seq<char>),
    pk: i32,
    s: Option<Seen>,
    x: BlockKeyView,
)
    requires
        addressed(a),
        a.finite(),
        a.spaces.contains_key(k),
        1 <= pk <= 2,
    ensures
        after_events(s, x, authority::pool_events(k, pk, a.pool_at(k, pk))) == if x.space() == k
            && x.pool_kind == pk && a.has_block(x) {
            seen_at(a, x)
        } else {
            s
        },
{
    let p = a.pool_at(k, pk);
    let flats = authority::flats_of(p);
    if p is None {
        assert(authority::pool_events(k, pk, p) =~= Seq::empty());
    } else {
        assert forall|i: int| 0 <= i < flats.len() implies p->0.by_flat.contains_key(
            #[trigger] flats[i],
        ) by {
            lemma_flats(p, flats[i]);
            assert(flats.contains(flats[i]));
        }
        assert forall|f: Seq<u8>| #[trigger]
            p->0.by_flat.contains_key(f) && p->0.by_flat[f].meta.id
                is Some implies BlockKeyView::of(p->0.by_flat[f].meta.id->0) == (BlockKeyView {
            model_id: k.0,
            revision: k.1,
            pool_kind: pk,
            flat: f,
        }) by {
            let y = BlockKeyView { model_id: k.0, revision: k.1, pool_kind: pk, flat: f };
            assert(a.has_block(y));
        }
        lemma_pool_events(k, pk, p, flats, s, x);
        lemma_flats(p, x.flat);
    }
}

proof fn lemma_spaces_shown(
    a: AuthorityView,
    names: Seq<(Seq<char>, Seq<char>)>,
    x: BlockKeyView,
)
    requires
        addressed(a),
        a.finite(),
        forall|i: int| 0 <= i < names.len() ==> a.spaces.contains_key(#[trigger] names[i]),
    ensures
        after_events(None, x, authority::spaces_events(a.spaces, names)) == if names.contains(
            x.space(),
        ) {
            seen_at(a, x)
        } else {
            None
        },
    decreases names.len(),
{
    if names.len() > 0 {
        let rest = names.drop_last();
        assert forall|i: int| 0 <= i < rest.len() implies a.spaces.contains_key(
            #[trigger] rest[i],
        ) by {
            assert(rest[i] == names[i]);
        }
        lemma_spaces_shown(a, rest, x);
        let k = names.last();
        assert(a.spaces.contains_key(names[names.len() - 1]));
        let e1 = authority::spaces_events(a.spaces, rest);
        let e2 = authority::ns_events(k, a.spaces[k]);
        lemma_after_concat(None, x, e1, e2);
        lemma_space_events(a, k, after_events(None, x, e1), x);
        if rest.contains(x.space()) {
            let j = choose|j: int| 0 <= j < rest.len() && rest[j] == x.space();
            assert(names[j] == x.space());
        }
        if names.contains(x.space()) && k != x.space() {
            let j = choose|j: int| 0 <= j < names.len() && names[j] == x.space();
            assert(rest[j] == x.space());
        }
        if k == x.space() {
            assert(names[names.len() - 1] == x.space());
        }
    }
}

/// A mirror that starts from a snapshot shows every block as the authority knows it,
/// and no other.
pub proof fn snapshots_show_everything(a: AuthorityView, x: BlockKeyView)
    requires
        addressed(a),
        a.finite(),
    ensures
        after_events(None, x, a.snapshot().events) == seen_at(a, x),
{
    listing::listing_lists::<NamespaceKey>(a.spaces.dom());
    let names = a.names();
    assert forall|i: int| 0 <= i < names.len() implies a.spaces.contains_key(
        #[trigger] names[i],
    ) by {
        assert(names.to_set().contains(names[i]));
    }
    lemma_spaces_shown(a, names, x);
    assert(names.to_set().contains(x.space()) == a.spaces.dom().contains(x.space()));
    assert(names.contains(x.space()) == a.spaces.contains_key(x.space()));
}

} // verus!
