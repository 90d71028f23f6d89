//! What holds of the charges: a namespace is charged for exactly the blocks that it
//! has, whatever comes and goes, and what is let in stays within its hard limit.

use vstd::prelude::*;

use crate::base::listing;
use crate::control::admission;
use crate::control::admission::{AdmitPlanView, RegisterStatusView};
use crate::control::authority::AuthorityView;
use crate::control::blocks;
use crate::control::hash_chain;
use crate::control::hash_chain::SequenceHash;
use crate::control::inactive;
use crate::control::inactive::{FrequencyView, InactiveView, Node};
use crate::control::laws;
use crate::control::namespace::{BlockKey, BlockKeyView, NamespaceKey, NsView};
use crate::control::pool;
use crate::control::pool::{PoolView, RefAccounts};
use crate::control::quota;
use crate::control::reconcile;
use crate::control::reconcile::PeelView;
use crate::control::refs;
use crate::control::register;
use crate::proto::{
    BlockMetaView, KvBlockIdView, LocationView, ModelDescriptorView, PoolKind, RefDeltaView,
    RefKind,
};

verus! {

/// Blocks and lineages name each other.
pub open spec fn paired(p: PoolView) -> bool {
    &&& p.by_flat.dom().finite()
    &&& forall|s: SequenceHash| #[trigger]
        p.seq_to_flat.contains_key(s) ==> p.by_flat.contains_key(p.seq_to_flat[s])
            && p.by_flat[p.seq_to_flat[s]].seq == s
    &&& forall|f: Seq<u8>| #[trigger]
        p.by_flat.contains_key(f) ==> p.seq_to_flat.contains_key(p.by_flat[f].seq)
            && p.seq_to_flat[p.by_flat[f].seq] == f
}

/// Blocks that may make room are there, and nothing holds them.
pub open spec fn spare(p: PoolView) -> bool {
    forall|s: SequenceHash| #[trigger]
        inactive::holds(p.inactive.nodes, s) ==> p.seq_to_flat.contains_key(s) && !p.holds(s)
}

/// The records of a pool are in order.
pub open spec fn tidy(p: PoolView) -> bool {
    paired(p) && p.inactive.wf() && spare(p)
}

/// The records of a namespace are in order, and it is charged for the blocks that it
/// has.
pub open spec fn balanced(ns: NsView) -> bool {
    &&& ns.target is Some ==> tidy(ns.target->0)
    &&& ns.draft is Some ==> tidy(ns.draft->0)
    &&& ns.used == ns.block_count() * ns.block_bytes()
}

/// All namespaces are balanced.
pub open spec fn books_balance(a: AuthorityView) -> bool {
    &&& a.spaces.dom().finite()
    &&& forall|k: (Seq<char>, Seq<char>)| #[trigger]
        a.spaces.contains_key(k) ==> balanced(a.spaces[k])
}

proof fn lemma_allocated(v: InactiveView, n: nat, counts: FrequencyView)
    requires
        v.wf(),
    ensures
        ({
            let (rest, victims) = v.allocated(n, counts);
            &&& forall|s: SequenceHash| #[trigger]
                inactive::holds(rest.nodes, s) ==> inactive::holds(v.nodes, s) && !inactive::holds(
                    victims,
                    s,
                )
            &&& forall|s: SequenceHash| #[trigger]
                inactive::holds(victims, s) ==> inactive::holds(v.nodes, s)
            &&& distinct(victims)
        }),
    decreases n,
{
    let (rest, victims) = v.allocated(n, counts);
    if n > 0 && v.victim() is Some {
        let seq = v.victim()->0;
        inactive::victim_is_a_cold_leaf(v);
        inactive::remove_keeps_wf(v, seq, counts);
        let w = v.removed(seq, counts);
        lemma_allocated(w, (n - 1) as nat, counts);
        let more = w.allocated((n - 1) as nat, counts).1;
        assert forall|s: SequenceHash| #[trigger] inactive::holds(victims, s) implies s == seq
            || inactive::holds(more, s) by {
            let i = choose|i: int| 0 <= i < victims.len() && (#[trigger] victims[i]).seq == s;
            if i > 0 {
                assert(more[i - 1].seq == s);
            }
        }
        assert forall|i: int, j: int|
            0 <= i < victims.len() && 0 <= j < victims.len() && i != j implies (
        #[trigger] victims[i]).seq != (#[trigger] victims[j]).seq by {
            if i > 0 {
                assert(victims[i] == more[i - 1]);
                assert(inactive::holds(more, more[i - 1].seq));
            }
            if j > 0 {
                assert(victims[j] == more[j - 1]);
                assert(inactive::holds(more, more[j - 1].seq));
            }
        }
    }
}

/// No lineage occurs twice.
spec fn distinct(nodes: Seq<Node>) -> bool {
    forall|i: int, j: int|
        0 <= i < nodes.len() && 0 <= j < nodes.len() && i != j ==> (#[trigger] nodes[i]).seq != (
        #[trigger] nodes[j]).seq
}

/// Victims that are there and that nothing holds all leave.
proof fn lemma_dropped(p: PoolView, victims: Seq<Node>)
    requires
        paired(p),
        distinct(victims),
        forall|s: SequenceHash| #[trigger]
            inactive::holds(victims, s) ==> p.seq_to_flat.contains_key(s) && !p.holds(s),
    ensures
        ({
            let (q, gone) = p.dropped(victims);
            &&& paired(q)
            &&& gone.len() == victims.len()
            &&& q.by_flat.len() + gone.len() == p.by_flat.len()
            &&& q.inactive == p.inactive
            &&& forall|s: SequenceHash| #[trigger]
                q.seq_to_flat.contains_key(s) <==> p.seq_to_flat.contains_key(s)
                    && !inactive::holds(victims, s)
            &&& forall|s: SequenceHash|
                !#[trigger] inactive::holds(victims, s) ==> q.accounts_of(s) == p.accounts_of(s)
        }),
    decreases victims.len(),
{
    if victims.len() > 0 {
        let init = victims.drop_last();
        let last = victims.last();
        let (q, gone) = p.dropped(init);
        assert forall|s: SequenceHash| #[trigger] inactive::holds(init, s) implies inactive::holds(
            victims,
            s,
        ) by {
            let i = choose|i: int| 0 <= i < init.len() && (#[trigger] init[i]).seq == s;
            assert(victims[i].seq == s);
        }
        assert(distinct(init)) by {
            assert forall|i: int, j: int|
                0 <= i < init.len() && 0 <= j < init.len() && i != j implies (
            #[trigger] init[i]).seq != (#[trigger] init[j]).seq by {
                assert(victims[i].seq != victims[j].seq);
            }
        }
        lemma_dropped(p, init);
        assert(!inactive::holds(init, last.seq)) by {
            if inactive::holds(init, last.seq) {
                let i = choose|i: int| 0 <= i < init.len() && (#[trigger] init[i]).seq == last.seq;
                assert(victims[i].seq != victims[victims.len() - 1].seq);
            }
        }
        assert(victims[victims.len() - 1] == last);
        assert(inactive::holds(victims, last.seq));
        assert(q.accounts_of(last.seq) == p.accounts_of(last.seq));
        let (r, more) = q.dropped_one(last);
        let flat = q.seq_to_flat[last.seq];
        assert(q.seq_to_flat.contains_key(last.seq));
        assert(r.by_flat == q.by_flat.remove(flat));
        assert forall|s: SequenceHash| #[trigger] inactive::holds(victims, s) implies s == last.seq
            || inactive::holds(init, s) by {
            let i = choose|i: int| 0 <= i < victims.len() && (#[trigger] victims[i]).seq == s;
            if i < init.len() {
                assert(init[i].seq == s);
            }
        }
        assert(paired(r)) by {
            assert forall|f: Seq<u8>| #[trigger]
                r.by_flat.contains_key(f) implies r.seq_to_flat.contains_key(r.by_flat[f].seq)
                && r.seq_to_flat[r.by_flat[f].seq] == f by {
                assert(q.by_flat.contains_key(f));
            }
            assert forall|s: SequenceHash| #[trigger]
                r.seq_to_flat.contains_key(s) implies r.by_flat.contains_key(r.seq_to_flat[s])
                && r.by_flat[r.seq_to_flat[s]].seq == s by {
                assert(q.seq_to_flat.contains_key(s));
            }
        }
        assert(p.dropped(victims) == (r, gone + more));
        assert(more.len() == 1);
        assert(q.by_flat.contains_key(flat));
        assert forall|s: SequenceHash| #[trigger]
            r.seq_to_flat.contains_key(s) <==> p.seq_to_flat.contains_key(s) && !inactive::holds(
                victims,
                s,
            ) by {
            assert(q.seq_to_flat.contains_key(s) <==> p.seq_to_flat.contains_key(s)
                && !inactive::holds(init, s));
        }
        assert forall|s: SequenceHash| !#[trigger]
            inactive::holds(victims, s) implies r.accounts_of(s) == p.accounts_of(s) by {
            assert(!inactive::holds(init, s));
            assert(q.accounts_of(s) == p.accounts_of(s));
        }
    }
}

/// What a pool gives up to make room is as much as was asked for, or all that may
/// leave, and its records stay in order.
pub proof fn eviction_keeps_order(p: PoolView, n: nat)
    requires
        tidy(p),
    ensures
        ({
            let (q, gone) = p.evicted(n);
            &&& tidy(q)
            &&& gone.len() == if n <= p.inactive.nodes.len() {
                n
            } else {
                p.inactive.nodes.len()
            }
            &&& q.by_flat.len() + gone.len() == p.by_flat.len()
            &&& q.inactive.nodes.len() + gone.len() == p.inactive.nodes.len()
        }),
{
    let (inactive, victims) = p.inactive.allocated(n, p.freq);
    let p0 = PoolView { inactive, ..p };
    inactive::allocation_is_complete(p.inactive, n, p.freq);
    lemma_allocated(p.inactive, n, p.freq);
    assert(paired(p0)) by {
        assert(paired(p));
    }
    assert forall|s: SequenceHash| #[trigger]
        inactive::holds(victims, s) implies p0.seq_to_flat.contains_key(s) && !p0.holds(s) by {
        assert(inactive::holds(p.inactive.nodes, s));
        assert(p0.accounts_of(s) == p.accounts_of(s));
    }
    lemma_dropped(p0, victims);
    let q = p0.dropped(victims).0;
    assert forall|s: SequenceHash| #[trigger]
        inactive::holds(q.inactive.nodes, s) implies q.seq_to_flat.contains_key(s) && !q.holds(
        s,
    ) by {
        assert(inactive::holds(inactive.nodes, s));
        assert(inactive::holds(p.inactive.nodes, s));
        assert(q.accounts_of(s) == p0.accounts_of(s));
        assert(p0.accounts_of(s) == p.accounts_of(s));
    }
}

/// Blocks that make room are no longer charged, and no other charge changes.
pub proof fn eviction_is_credited(ns: NsView, n: nat)
    requires
        balanced(ns),
    ensures
        balanced(ns.evicted(n).0),
        ns.evicted(n).1.len() == if n <= ns.inactive_len() {
            n
        } else {
            ns.inactive_len()
        },
        ns.evicted(n).0.used == ns.used - ns.evicted(n).1.len() * ns.block_bytes(),
        ns.evicted(n).0.inactive_len() + ns.evicted(n).1.len() == ns.inactive_len(),
{
    let (b, gone) = ns.evicted(n);
    let first = if ns.target is Some {
        eviction_keeps_order(ns.target->0, n);
        ns.target->0.evicted(n).1.len()
    } else {
        0
    };
    let left = if first >= n {
        0nat
    } else {
        (n - first) as nat
    };
    if ns.draft is Some {
        eviction_keeps_order(ns.draft->0, left);
    }
    let m = gone.len();
    let c = ns.block_count();
    let per = ns.block_bytes();
    assert(b.block_count() + m == c);
    assert((c - m) * per == c * per - m * per && (c - m) * per >= 0) by (nonlinear_arith)
        requires
            m <= c,
            per >= 1,
    ;
}

proof fn lemma_ns_evicted(a: AuthorityView, k: (Seq<char>, Seq<char>), n: nat)
    requires
        books_balance(a),
        a.spaces.contains_key(k),
    ensures
        books_balance(a.ns_evicted(k, n)),
        a.ns_evicted(k, n).spaces.dom() == a.spaces.dom(),
{
    let b = a.ns_evicted(k, n);
    eviction_is_credited(a.spaces[k], n);
    assert(b.spaces.dom() =~= a.spaces.dom());
    assert forall|j: (Seq<char>, Seq<char>)| #[trigger] b.spaces.contains_key(j) implies balanced(
        b.spaces[j],
    ) by {
        assert(a.spaces.contains_key(j));
    }
}

proof fn lemma_reclaimed(
    a: AuthorityView,
    except: (Seq<char>, Seq<char>),
    want: int,
    names: Seq<(Seq<char>, Seq<char>)>,
)
    requires
        books_balance(a),
        forall|i: int| 0 <= i < names.len() ==> a.spaces.contains_key(#[trigger] names[i]),
    ensures
        books_balance(a.reclaimed(except, want, names).0),
        a.reclaimed(except, want, names).0.spaces.dom() == a.spaces.dom(),
        a.spaces.contains_key(except) ==> a.reclaimed(except, want, names).0.spaces[except]
            == a.spaces[except],
    decreases names.len(),
{
    if names.len() > 0 {
        let init = names.drop_last();
        assert forall|i: int| 0 <= i < init.len() implies a.spaces.contains_key(
            #[trigger] init[i],
        ) by {
            assert(init[i] == names[i]);
        }
        lemma_reclaimed(a, except, want, init);
        let (b, freed) = a.reclaimed(except, want, init);
        let k = names.last();
        assert(a.spaces.contains_key(names[names.len() - 1]));
        assert(b.spaces.contains_key(k));
        let ns = b.spaces[k];
        if !(k == except || freed >= want || admission::borrowed_by(ns) <= 0) {
            let aim = if want - freed <= admission::borrowed_by(ns) {
                want - freed
            } else {
                admission::borrowed_by(ns)
            };
            lemma_ns_evicted(b, k, admission::blocks_for(aim, ns.block_bytes()) as nat);
        }
    }
}

/// Carrying out an admission keeps the books.
proof fn lemma_admitted(a: AuthorityView, k: (Seq<char>, Seq<char>), plan: AdmitPlanView)
    requires
        books_balance(a),
        a.spaces.contains_key(k),
    ensures
        books_balance(a.admitted(k, plan)),
        a.admitted(k, plan).spaces.dom() == a.spaces.dom(),
        a.admitted(k, plan).spaces[k] == match plan {
            AdmitPlanView::Accept { own, reclaim } => if own > 0 {
                a.spaces[k].evicted(own).0
            } else {
                a.spaces[k]
            },
            AdmitPlanView::Reject(_) => a.spaces[k],
        },
{
    match plan {
        AdmitPlanView::Reject(_) => {},
        AdmitPlanView::Accept { own, reclaim } => {
            let b = if own > 0 {
                lemma_ns_evicted(a, k, own);
                a.ns_evicted(k, own)
            } else {
                a
            };
            if reclaim > 0 {
                listing::listing_lists::<NamespaceKey>(b.spaces.dom());
                assert forall|i: int| 0 <= i < b.names().len() implies b.spaces.contains_key(
                    #[trigger] b.names()[i],
                ) by {
                    assert(b.names().to_set().contains(b.names()[i]));
                }
                lemma_reclaimed(b, k, reclaim, b.names());
            }
        },
    }
}

/// The lineage that a batch gives a block.
pub open spec fn place_of(prefix: Seq<Seq<u8>>, flat: Seq<u8>) -> SequenceHash {
    hash_chain::lineage(prefix)[register::last_index(prefix, flat)]
}

/// No block of a batch is known under another lineage, and no lineage of it belongs to
/// another block.
pub open spec fn fits_in(p: PoolView, prefix: Seq<Seq<u8>>, metas: Seq<BlockMetaView>) -> bool {
    forall|f: Seq<u8>| #[trigger]
        laws::names_block(metas, f) ==> {
            &&& p.by_flat.contains_key(f) ==> p.by_flat[f].seq == place_of(prefix, f)
            &&& p.seq_to_flat.contains_key(place_of(prefix, f)) ==> p.seq_to_flat[place_of(
                prefix,
                f,
            )] == f
        }
}

/// The hashes of a batch.
spec fn batch_hashes(metas: Seq<BlockMetaView>) -> Seq<Seq<u8>> {
    register::hashes_of(register::ids_of(metas))
}

/// The blocks of a batch are in its chain.
spec fn in_chain(prefix: Seq<Seq<u8>>, metas: Seq<BlockMetaView>) -> bool {
    forall|f: Seq<u8>| #[trigger]
        laws::names_block(metas, f) ==> register::last_index(prefix, f) >= 0
}

proof fn lemma_in_chain(
    ids: Seq<KvBlockIdView>,
    first: KvBlockIdView,
    pk: i32,
    prefix: Seq<Seq<u8>>,
    f: Seq<u8>,
)
    requires
        register::ids_fault(ids, first, pk, prefix) is None,
        register::hashes_of(ids).contains(f),
    ensures
        register::last_index(prefix, f) >= 0,
    decreases ids.len(),
{
    let hs = register::hashes_of(ids);
    let i = choose|i: int| 0 <= i < hs.len() && hs[i] == f;
    if i < ids.len() - 1 {
        let init = ids.drop_last();
        assert(register::hashes_of(init)[i] == f);
        lemma_in_chain(init, first, pk, prefix, f);
    } else {
        assert(ids.last().block_hash == f);
    }
}

/// Places in a chain are told apart.
proof fn lemma_places_differ(prefix: Seq<Seq<u8>>, f: Seq<u8>, g: Seq<u8>)
    requires
        prefix.len() <= 16_777_216,
        register::last_index(prefix, f) >= 0,
        register::last_index(prefix, g) >= 0,
        place_of(prefix, f) == place_of(prefix, g),
    ensures
        f == g,
{
    let i = register::last_index(prefix, f);
    let j = register::last_index(prefix, g);
    register::lemma_last_index(prefix, f);
    register::lemma_last_index(prefix, g);
    hash_chain::positions_are_indices(prefix.take(i + 1));
    hash_chain::positions_are_indices(prefix.take(j + 1));
}

/// The batch without its last record, and the last record's hash.
proof fn lemma_batch_last(metas: Seq<BlockMetaView>, f: Seq<u8>)
    requires
        metas.len() > 0,
    ensures
        laws::names_block(metas, f) == (laws::names_block(metas.drop_last(), f) || (
        metas.last().id is Some && metas.last().id->0.block_hash == f)),
        metas.last().id is None ==> batch_hashes(metas) == batch_hashes(metas.drop_last()),
        metas.last().id is Some ==> batch_hashes(metas) == batch_hashes(metas.drop_last()).push(
            metas.last().id->0.block_hash,
        ),
{
    let ids = register::ids_of(metas.drop_last());
    let hs = register::hashes_of(ids);
    match metas.last().id {
        Some(id) => {
            assert(register::hashes_of(ids.push(id)) =~= hs.push(id.block_hash));
            if hs.contains(f) {
                let j = choose|j: int| 0 <= j < hs.len() && hs[j] == f;
                assert(hs.push(id.block_hash)[j] == f);
            }
            if id.block_hash == f {
                assert(hs.push(id.block_hash)[hs.len() as int] == f);
            }
        },
        None => {},
    }
}

/// Storing a batch adds exactly the blocks that were not known.
proof fn lemma_stored(
    p: PoolView,
    node_id: Seq<char>,
    pk: i32,
    prefix: Seq<Seq<u8>>,
    metas: Seq<BlockMetaView>,
)
    requires
        tidy(p),
        prefix.len() <= 16_777_216,
        in_chain(prefix, metas),
        fits_in(p, prefix, metas),
    ensures
        ({
            let (q, _, fresh) = register::stored_all(p, node_id, pk, prefix, metas);
            &&& tidy(q)
            &&& q.by_flat.len() == p.by_flat.len() + fresh
            &&& fresh == admission::unknown_flats(Some(p), batch_hashes(metas)).len()
            &&& fresh <= metas.len()
        }),
    decreases metas.len(),
{
    if metas.len() == 0 {
        assert(batch_hashes(metas) =~= Seq::empty());
        assert(admission::unknown_flats(Some(p), batch_hashes(metas)) =~= Set::empty());
    } else {
        let init = metas.drop_last();
        assert forall|f: Seq<u8>| #[trigger] laws::names_block(init, f) implies laws::names_block(
            metas,
            f,
        ) by {
            lemma_batch_last(metas, f);
        }
        lemma_stored(p, node_id, pk, prefix, init);
        let (q, events, fresh) = register::stored_all(p, node_id, pk, prefix, init);
        let before = admission::unknown_flats(Some(p), batch_hashes(init));
        let after = admission::unknown_flats(Some(p), batch_hashes(metas));
        match metas.last().id {
            None => {
                lemma_batch_last(metas, Seq::empty());
            },
            Some(id) => {
                let f = id.block_hash;
                lemma_batch_last(metas, f);
                laws::storing_places_blocks(p, node_id, pk, prefix, init, f);
                let s = place_of(prefix, f);
                assert(laws::names_block(metas, f));
                assert(q.by_flat.contains_key(f) ==> q.by_flat[f].seq == s);
                assert(q.seq_to_flat.contains_key(s) ==> q.seq_to_flat[s] == f) by {
                    if q.seq_to_flat.contains_key(s) {
                        let g = q.seq_to_flat[s];
                        laws::storing_places_blocks(p, node_id, pk, prefix, init, g);
                        if laws::names_block(init, g) {
                            assert(laws::names_block(metas, g));
                            lemma_places_differ(prefix, f, g);
                        } else {
                            assert(p.by_flat.contains_key(g));
                            assert(p.seq_to_flat.contains_key(s));
                        }
                    }
                }
                let meta = pool::settled(metas.last(), pk, node_id);
                let at = register::last_index(prefix, f);
                let r = q.stored(f, s, meta, prefix.take(at + 1));
                let is_new = !q.by_flat.contains_key(f);
                assert(paired(r)) by {
                    assert forall|x: SequenceHash| #[trigger]
                        r.seq_to_flat.contains_key(x) implies r.by_flat.contains_key(
                        r.seq_to_flat[x],
                    ) && r.by_flat[r.seq_to_flat[x]].seq == x by {
                        if x != s {
                            assert(q.seq_to_flat.contains_key(x));
                            let g = q.seq_to_flat[x];
                            assert(q.by_flat[g].seq == x);
                        }
                    }
                    assert forall|g: Seq<u8>| #[trigger]
                        r.by_flat.contains_key(g) implies r.seq_to_flat.contains_key(
                        r.by_flat[g].seq,
                    ) && r.seq_to_flat[r.by_flat[g].seq] == g by {
                        if g != f {
                            assert(q.by_flat.contains_key(g));
                            assert(q.seq_to_flat[q.by_flat[g].seq] == g);
                        }
                    }
                }
                assert(spare(r)) by {
                    assert forall|x: SequenceHash| #[trigger]
                        inactive::holds(r.inactive.nodes, x) implies r.seq_to_flat.contains_key(x)
                        && !r.holds(x) by {
                        assert(inactive::holds(q.inactive.nodes, x));
                        assert(r.accounts_of(x) == q.accounts_of(x));
                    }
                }
                let hs = batch_hashes(init);
                assert(is_new == (!p.by_flat.contains_key(f) && !laws::names_block(init, f)));
                assert forall|h: Seq<u8>| #[trigger] hs.push(f).contains(h) == (hs.contains(h) || h
                    == f) by {
                    if hs.contains(h) {
                        let j = choose|j: int| 0 <= j < hs.len() && hs[j] == h;
                        assert(hs.push(f)[j] == h);
                    }
                    assert(hs.push(f)[hs.len() as int] == f);
                }
                if is_new {
                    assert(after =~= before.insert(f));
                    assert(!before.contains(f));
                } else {
                    assert(after =~= before);
                }
            },
        }
    }
}

/// A pool without blocks is in order.
proof fn lemma_fresh_pool(cap: nat)
    ensures
        tidy(PoolView::fresh(cap)),
{
    let p = PoolView::fresh(cap);
    assert(p.by_flat.dom() =~= Set::empty());
    assert forall|s: SequenceHash| !#[trigger] inactive::holds(p.inactive.nodes, s) by {
    }
    assert forall|s: SequenceHash| !#[trigger] inactive::listed(p.inactive.leaves, s) by {
    }
}

/// A pool that made room takes in what it would have taken in before.
proof fn lemma_still_fits(
    p: PoolView,
    q: PoolView,
    prefix: Seq<Seq<u8>>,
    metas: Seq<BlockMetaView>,
)
    requires
        tidy(p),
        tidy(q),
        laws::pool_shrunk(p, q),
        fits_in(p, prefix, metas),
    ensures
        fits_in(q, prefix, metas),
{
    assert forall|f: Seq<u8>| #[trigger] laws::names_block(metas, f) implies {
        &&& q.by_flat.contains_key(f) ==> q.by_flat[f].seq == place_of(prefix, f)
        &&& q.seq_to_flat.contains_key(place_of(prefix, f)) ==> q.seq_to_flat[place_of(prefix, f)]
            == f
    } by {
        let s = place_of(prefix, f);
        if q.seq_to_flat.contains_key(s) {
            let g = q.seq_to_flat[s];
            assert(q.by_flat.contains_key(g));
            assert(p.by_flat.contains_key(g));
            assert(p.seq_to_flat.contains_key(s));
        }
    }
}

/// The pool that a batch goes to, before and after room was made.
proof fn lemma_room(a: AuthorityView, k: (Seq<char>, Seq<char>), pk: i32, plan: AdmitPlanView)
    requires
        books_balance(a),
        a.spaces.contains_key(k),
        pk == PoolKind::Target.spec_number() || pk == PoolKind::Draft.spec_number(),
    ensures
        ({
            let p = a.spaces[k].pool_or_new(pk);
            let q = a.admitted(k, plan).spaces[k].pool_or_new(pk);
            tidy(p) && tidy(q) && laws::pool_shrunk(p, q)
        }),
{
    let c = a.admitted(k, plan);
    lemma_admitted(a, k, plan);
    laws::admission_only_makes_room(a, k, plan);
    assert(laws::ns_shrunk(a.spaces[k], c.spaces[k]));
    assert(balanced(c.spaces[k]));
    lemma_fresh_pool(a.spaces[k].cap);
}

/// Room for the blocks of a batch, without going beyond what numbers hold.
pub open spec fn countable(a: AuthorityView, k: (Seq<char>, Seq<char>), n: nat) -> bool {
    (a.spaces[k].block_count() + n) * a.spaces[k].block_bytes() <= i64::MAX
}

/// What is registered is charged: after a batch every namespace is charged for exactly
/// the blocks that it has, where the batch knows its blocks under the lineages under
/// which they are known.
pub proof fn registration_is_charged(
    a: AuthorityView,
    node_id: Seq<char>,
    prefix: Seq<Seq<u8>>,
    metas: Seq<BlockMetaView>,
)
    requires
        books_balance(a),
        prefix.len() <= 16_777_216,
        register::batch_verdict(register::ids_of(metas), prefix) matches Ok((k, pk)) ==> (
        a.spaces.contains_key(k) ==> fits_in(a.spaces[k].pool_or_new(pk), prefix, metas)
            && countable(a, k, metas.len())),
    ensures
        books_balance(a.registered(node_id, prefix, metas).0),
{
    let ids = register::ids_of(metas);
    if metas.len() > 0 {
        match register::batch_verdict(ids, prefix) {
            Err(_) => {},
            Ok((k, pk)) => if a.spaces.contains_key(k) {
                let fresh = admission::unknown_flats(a.spaces[k].pool(pk), batch_hashes(metas)).len();
                let plan = a.plan(k, fresh)->Ok_0;
                let c = a.admitted(k, plan);
                lemma_admitted(a, k, plan);
                if plan.status() is Accepted && !register::not_durable(metas) {
                    lemma_room(a, k, pk, plan);
                    lemma_batch_kept(a, c, k, pk, node_id, prefix, metas, plan);
                }
            },
        }
    }
}

/// Storing a batch adds exactly the blocks that were not known, whatever their
/// lineages.
proof fn lemma_stored_count(
    p: PoolView,
    node_id: Seq<char>,
    pk: i32,
    prefix: Seq<Seq<u8>>,
    metas: Seq<BlockMetaView>,
)
    requires
        p.by_flat.dom().finite(),
    ensures
        ({
            let (q, _, fresh) = register::stored_all(p, node_id, pk, prefix, metas);
            &&& q.by_flat.dom().finite()
            &&& q.by_flat.len() == p.by_flat.len() + fresh
            &&& fresh == admission::unknown_flats(Some(p), batch_hashes(metas)).len()
            &&& forall|f: Seq<u8>| #[trigger]
                q.by_flat.contains_key(f) == (p.by_flat.contains_key(f) || laws::names_block(
                    metas,
                    f,
                ))
        }),
    decreases metas.len(),
{
    let after = admission::unknown_flats(Some(p), batch_hashes(metas));
    if metas.len() == 0 {
        assert(batch_hashes(metas) =~= Seq::empty());
        assert(after =~= Set::empty());
    } else {
        let init = metas.drop_last();
        lemma_stored_count(p, node_id, pk, prefix, init);
        let (q, _, fresh) = register::stored_all(p, node_id, pk, prefix, init);
        let r = register::stored_all(p, node_id, pk, prefix, metas).0;
        let before = admission::unknown_flats(Some(p), batch_hashes(init));
        assert forall|f: Seq<u8>| #[trigger] r.by_flat.contains_key(f) == (p.by_flat.contains_key(f)
            || laws::names_block(metas, f)) by {
            lemma_batch_last(metas, f);
            assert(q.by_flat.contains_key(f) == (p.by_flat.contains_key(f) || laws::names_block(
                init,
                f,
            )));
        }
        match metas.last().id {
            None => {
                lemma_batch_last(metas, Seq::empty());
            },
            Some(id) => {
                let f = id.block_hash;
                assert forall|h: Seq<u8>| #[trigger] after.contains(h) == (before.contains(h) || (h
                    == f && !p.by_flat.contains_key(f))) by {
                    lemma_batch_last(metas, h);
                }
                assert(q.by_flat.contains_key(f) == (p.by_flat.contains_key(f)
                    || laws::names_block(init, f)));
                if q.by_flat.contains_key(f) {
                    assert(after =~= before);
                    assert(r.by_flat.dom() =~= q.by_flat.dom());
                } else {
                    assert(after =~= before.insert(f));
                    assert(r.by_flat.dom() =~= q.by_flat.dom().insert(f));
                }
                vstd::seq_lib::seq_to_set_is_finite(batch_hashes(init));
            },
        }
    }
}

/// The blocks of a batch that are new to its pool, each once.
pub open spec fn new_blocks(
    a: AuthorityView,
    k: (Seq<char>, Seq<char>),
    pk: i32,
    metas: Seq<BlockMetaView>,
) -> Set<Seq<u8>> {
    admission::unknown_flats(a.spaces[k].pool(pk), register::hashes_of(register::ids_of(metas)))
}

/// Without a limit a registration that is accepted charges for each new block, and for
/// no other: used bytes grow by the block size times the number of new blocks, and as
/// many blocks are known more. No block makes room for them.
pub proof fn new_blocks_are_charged(
    a: AuthorityView,
    node_id: Seq<char>,
    prefix: Seq<Seq<u8>>,
    metas: Seq<BlockMetaView>,
    k: (Seq<char>, Seq<char>),
    pk: i32,
)
    requires
        a.finite(),
        register::batch_verdict(register::ids_of(metas), prefix) == Ok::<
            ((Seq<char>, Seq<char>), i32),
            Seq<char>,
        >((k, pk)),
        a.spaces.contains_key(k),
        a.spaces[k].quota().soft_bytes == 0,
        a.spaces[k].quota().hard_bytes == 0,
        a.registered(node_id, prefix, metas).1 == Ok::<RegisterStatusView, Seq<char>>(
            RegisterStatusView::Accepted,
        ),
        i64::MIN <= a.spaces[k].used + new_blocks(a, k, pk, metas).len()
            * a.spaces[k].block_bytes() <= i64::MAX,
    ensures
        ({
            let b = a.registered(node_id, prefix, metas).0;
            let n = new_blocks(a, k, pk, metas).len();
            &&& b.spaces.contains_key(k)
            &&& b.spaces[k].used == a.spaces[k].used + n * a.spaces[k].block_bytes()
            &&& b.spaces[k].block_count() == a.spaces[k].block_count() + n
        }),
{
    let ns = a.spaces[k];
    let n = new_blocks(a, k, pk, metas).len();
    let per = ns.block_bytes();
    let p = ns.pool_or_new(pk);
    let plan = a.plan(k, n)->Ok_0;
    assert(admission::blocks_for(0, per) == 0) by (nonlinear_arith)
        requires
            per >= 1,
            admission::blocks_for(0, per) == (0 + per - 1) / per,
    ;
    assert(0 * per == 0) by (nonlinear_arith);
    assert(a.admitted(k, plan) == a);
    assert(metas.len() > 0);
    assert(a.pool_at(k, pk) == ns.pool(pk));
    assert(p.by_flat.dom().finite()) by {
        if ns.pool(pk) is None {
            assert(p.by_flat.dom() =~= Set::empty());
        }
    }
    assert(new_blocks(a, k, pk, metas) =~= admission::unknown_flats(Some(p), batch_hashes(metas)));
    lemma_stored_count(p, node_id, pk, prefix, metas);
}

/// Registering a batch again, right after it was accepted, is accepted again, and
/// changes neither charges nor the blocks that are known.
pub proof fn registering_twice_charges_once(
    a: AuthorityView,
    node_id: Seq<char>,
    prefix: Seq<Seq<u8>>,
    metas: Seq<BlockMetaView>,
    k: (Seq<char>, Seq<char>),
)
    requires
        a.finite(),
        a.registered(node_id, prefix, metas).1 == Ok::<RegisterStatusView, Seq<char>>(
            RegisterStatusView::Accepted,
        ),
    ensures
        ({
            let b = a.registered(node_id, prefix, metas).0;
            let (c, r) = b.registered(node_id, prefix, metas);
            &&& r == Ok::<RegisterStatusView, Seq<char>>(RegisterStatusView::Accepted)
            &&& c.spaces.dom() == b.spaces.dom()
            &&& b.spaces.contains_key(k) ==> c.spaces[k].used == b.spaces[k].used
                && c.spaces[k].block_count() == b.spaces[k].block_count()
        }),
{
    if metas.len() > 0 {
        let ids = register::ids_of(metas);
        let (to, pk) = register::batch_verdict(ids, prefix)->Ok_0;
        let (b, _) = a.registered(node_id, prefix, metas);
        let n = new_blocks(a, to, pk, metas).len();
        let plan = a.plan(to, n)->Ok_0;
        let m = a.admitted(to, plan);
        laws::admission_only_makes_room(a, to, plan);
        let p = m.spaces[to].pool_or_new(pk);
        assert(p.by_flat.dom().finite()) by {
            let was = a.spaces[to].pool_or_new(pk);
            assert(laws::ns_shrunk(a.spaces[to], m.spaces[to]));
            assert(a.pool_at(to, pk) == a.spaces[to].pool(pk));
            if m.spaces[to].pool(pk) is None {
                assert(p.by_flat.dom() =~= Set::empty());
            } else {
                assert(p.by_flat.dom().subset_of(was.by_flat.dom())) by {
                    assert forall|f: Seq<u8>| p.by_flat.dom().contains(f) implies was.by_flat.dom().contains(
                        f,
                    ) by {
                        assert(p.by_flat.contains_key(f));
                        assert(was.by_flat.contains_key(f));
                    }
                }
                vstd::set_lib::lemma_set_subset_finite(was.by_flat.dom(), p.by_flat.dom());
            }
        }
        lemma_stored_count(p, node_id, pk, prefix, metas);
        let q = b.spaces[to].pool_or_new(pk);
        assert(q == register::stored_all(p, node_id, pk, prefix, metas).0);
        assert(new_blocks(b, to, pk, metas) =~= Set::empty()) by {
            assert forall|h: Seq<u8>| !#[trigger] new_blocks(b, to, pk, metas).contains(h) by {
                if batch_hashes(metas).contains(h) {
                    assert(laws::names_block(metas, h));
                    assert(q.by_flat.contains_key(h));
                }
            }
        }
        lemma_stored_count(q, node_id, pk, prefix, metas);
        assert(admission::unknown_flats(Some(q), batch_hashes(metas)) =~= Set::empty());
        let c = b.registered(node_id, prefix, metas).0;
        assert(0 * b.spaces[to].block_bytes() == 0) by (nonlinear_arith);
        assert(c.spaces.dom() =~= b.spaces.dom());
    }
}

/// Storing a batch that fits keeps the books.
proof fn lemma_batch_kept(
    a: AuthorityView,
    c: AuthorityView,
    k: (Seq<char>, Seq<char>),
    pk: i32,
    node_id: Seq<char>,
    prefix: Seq<Seq<u8>>,
    metas: Seq<BlockMetaView>,
    plan: AdmitPlanView,
)
    requires
        books_balance(a),
        books_balance(c),
        a.spaces.contains_key(k),
        c == a.admitted(k, plan),
        prefix.len() <= 16_777_216,
        register::batch_verdict(register::ids_of(metas), prefix) == Ok::<
            ((Seq<char>, Seq<char>), i32),
            Seq<char>,
        >((k, pk)),
        fits_in(a.spaces[k].pool_or_new(pk), prefix, metas),
        countable(a, k, metas.len()),
    ensures
        books_balance(c.batch_stored(k, pk, node_id, prefix, metas)),
        ({
            let b = c.batch_stored(k, pk, node_id, prefix, metas);
            let fresh = admission::unknown_flats(
                Some(c.spaces[k].pool_or_new(pk)),
                batch_hashes(metas),
            ).len();
            b.spaces[k].used == c.spaces[k].used + fresh * a.spaces[k].block_bytes()
        }),
{
    let ids = register::ids_of(metas);
    lemma_admitted(a, k, plan);
    lemma_room(a, k, pk, plan);
    let was = a.spaces[k];
    let ns = c.spaces[k];
    let p = ns.pool_or_new(pk);
    lemma_still_fits(was.pool_or_new(pk), p, prefix, metas);
    assert(in_chain(prefix, metas)) by {
        assert forall|f: Seq<u8>| #[trigger] laws::names_block(metas, f) implies register::last_index(
            prefix,
            f,
        ) >= 0 by {
            lemma_in_chain(ids, ids[0], pk, prefix, f);
        }
    }
    lemma_stored(p, node_id, pk, prefix, metas);
    let (q, _, fresh) = register::stored_all(p, node_id, pk, prefix, metas);
    let b = c.batch_stored(k, pk, node_id, prefix, metas);
    let per = was.block_bytes();
    assert(ns.block_bytes() == per && ns.block_count() <= was.block_count()) by {
        match plan {
            AdmitPlanView::Accept { own, reclaim } => if own > 0 {
                lemma_count(was, own);
            },
            AdmitPlanView::Reject(_) => {},
        }
    }
    let n = ns.block_count();
    let most = was.block_count() + metas.len();
    assert(n * per + fresh * per == (n + fresh) * per <= most * per) by (nonlinear_arith)
        requires
            n + fresh <= most,
            per >= 1,
    ;
    let d = ns.with_pool(pk, q);
    assert(d.block_count() == n + fresh) by {
        assert(PoolView::fresh(ns.cap).by_flat.dom() =~= Set::empty());
    }
    assert(n * per == ns.used && fresh * per >= 0) by (nonlinear_arith)
        requires
            n * per == ns.used,
            fresh >= 0,
            per >= 1,
    ;
    assert(balanced(d.charged(fresh)));
    assert(b.spaces =~= c.spaces.insert(k, d.charged(fresh)));
    assert forall|j: (Seq<char>, Seq<char>)| #[trigger] b.spaces.contains_key(j) implies balanced(
        b.spaces[j],
    ) by {
        assert(j == k || c.spaces.contains_key(j));
    }
}

/// Making room leaves fewer blocks, of the same size.
proof fn lemma_count(ns: NsView, n: nat)
    requires
        balanced(ns),
    ensures
        ns.evicted(n).0.block_count() <= ns.block_count(),
        ns.evicted(n).0.descriptor == ns.descriptor,
{
    let first = if ns.target is Some {
        eviction_keeps_order(ns.target->0, n);
        ns.target->0.evicted(n).1.len()
    } else {
        0
    };
    let left = if first >= n {
        0nat
    } else {
        (n - first) as nat
    };
    if ns.draft is Some {
        eviction_keeps_order(ns.draft->0, left);
    }
}

/// Making room takes no block that the batch itself names.
pub open spec fn spares_its_own(
    a: AuthorityView,
    k: (Seq<char>, Seq<char>),
    pk: i32,
    metas: Seq<BlockMetaView>,
    plan: AdmitPlanView,
) -> bool {
    forall|f: Seq<u8>| #[trigger]
        laws::names_block(metas, f) && admission::known(a.spaces[k].pool(pk), f)
            ==> admission::known(a.admitted(k, plan).spaces[k].pool(pk), f)
}

/// The hard limit is kept: a batch with new blocks that is let in leaves its namespace
/// within the limit, unless the room for it is made at the expense of its own blocks.
pub proof fn hard_quota_is_kept(
    a: AuthorityView,
    node_id: Seq<char>,
    prefix: Seq<Seq<u8>>,
    metas: Seq<BlockMetaView>,
    k: (Seq<char>, Seq<char>),
    pk: i32,
)
    requires
        books_balance(a),
        prefix.len() <= 16_777_216,
        metas.len() > 0,
        register::batch_verdict(register::ids_of(metas), prefix) == Ok::<
            ((Seq<char>, Seq<char>), i32),
            Seq<char>,
        >((k, pk)),
        a.registered(node_id, prefix, metas).1 == Ok::<RegisterStatusView, Seq<char>>(
            RegisterStatusView::Accepted,
        ),
        fits_in(a.spaces[k].pool_or_new(pk), prefix, metas),
        countable(a, k, metas.len()),
        a.spaces[k].quota().hard_bytes > 0,
        ({
            let hashes = register::hashes_of(register::ids_of(metas));
            let fresh = admission::unknown_flats(a.spaces[k].pool(pk), hashes).len();
            fresh > 0 && spares_its_own(a, k, pk, metas, a.plan(k, fresh)->Ok_0)
        }),
    ensures
        a.registered(node_id, prefix, metas).0.spaces[k].used <= a.spaces[k].quota().hard_bytes,
{
    let was = a.spaces[k];
    let per = was.block_bytes();
    let hard = was.quota().hard_bytes;
    let unknown = admission::unknown_flats(was.pool(pk), batch_hashes(metas));
    let n = unknown.len();
    let plan = a.plan(k, n)->Ok_0;
    let c = a.admitted(k, plan);
    let (own, reclaim) = match plan {
        AdmitPlanView::Accept { own, reclaim } => (own, reclaim),
        AdmitPlanView::Reject(_) => (0, 0),
    };
    assert(plan is Accept);
    lemma_admitted(a, k, plan);
    lemma_room(a, k, pk, plan);
    lemma_batch_kept(a, c, k, pk, node_id, prefix, metas, plan);
    eviction_is_credited(was, own);
    // As many blocks are new after room was made as before.
    let p = c.spaces[k].pool_or_new(pk);
    let now = admission::unknown_flats(Some(p), batch_hashes(metas));
    assert(now =~= unknown) by {
        assert forall|f: Seq<u8>| #[trigger] now.contains(f) == unknown.contains(f) by {
            let hs = batch_hashes(metas);
            assert(hs.to_set().contains(f) == laws::names_block(metas, f));
            if laws::names_block(metas, f) {
                assert(admission::known(was.pool(pk), f) ==> admission::known(
                    c.spaces[k].pool(pk),
                    f,
                ));
                if p.by_flat.contains_key(f) {
                    assert(was.pool_or_new(pk).by_flat.contains_key(f));
                }
            }
        }
    }
    // The numbers are within bounds.
    let hs = batch_hashes(metas);
    vstd::seq_lib::seq_to_set_is_finite(hs);
    hs.lemma_cardinality_of_set();
    vstd::set_lib::lemma_len_subset(unknown, hs.to_set());
    lemma_hashes_len(metas);
    let count = was.block_count();
    let more = metas.len();
    assert(0 <= n * per <= (count + more) * per && n <= n * per) by (nonlinear_arith)
        requires
            n <= more,
            per >= 1,
    ;
    let delta = quota::clamped(quota::clamped(n as int) * per);
    assert(delta == n * per);
    assert(own * per <= was.used && 0 <= own * per) by (nonlinear_arith)
        requires
            was.used - own * per >= 0,
            per >= 1,
            own >= 0,
    ;
    let left = was.used - own * per;
    assert(plan == admission::ns_plan(
        k,
        was,
        n,
        a.capacity,
        a.free_bytes(),
        admission::reclaimable(a.spaces, k, a.names()),
    ));
    assert(!(quota::classified(left, delta, was.quota()) is HardQuota));
    assert(count * per == was.used);
    assert((count + more) * per == count * per + more * per && n * per <= more * per)
        by (nonlinear_arith)
        requires
            n <= more,
            per >= 1,
    ;
    assert(quota::clamped(left + delta) == left + delta);
    assert(left + delta <= hard);
    if own == 0 {
        assert(own * per == 0) by (nonlinear_arith)
            requires
                own == 0,
        ;
    }
    assert(c.spaces[k].used == left);
}

proof fn lemma_hashes_len(metas: Seq<BlockMetaView>)
    ensures
        batch_hashes(metas).len() <= metas.len(),
    decreases metas.len(),
{
    if metas.len() > 0 {
        lemma_hashes_len(metas.drop_last());
        lemma_batch_last(metas, Seq::empty());
    }
}

/// A namespace with one pool changed is balanced where the pool is in order and the
/// charge follows its blocks.
proof fn lemma_pool_changed(
    a: AuthorityView,
    b: AuthorityView,
    k: (Seq<char>, Seq<char>),
    pk: i32,
    q: PoolView,
    m: nat,
)
    requires
        books_balance(a),
        a.spaces.contains_key(k),
        a.spaces[k].pool(pk) is Some,
        tidy(q),
        q.by_flat.len() + m == a.spaces[k].pool(pk)->0.by_flat.len(),
        b.spaces == a.spaces.insert(k, a.spaces[k].with_pool(pk, q).credited(m)),
    ensures
        books_balance(b),
{
    let ns = a.spaces[k];
    let d = ns.with_pool(pk, q);
    let c = ns.block_count();
    let per = ns.block_bytes();
    assert(d.block_count() + m == c);
    assert((c - m) * per == c * per - m * per && (c - m) * per >= 0) by (nonlinear_arith)
        requires
            m <= c,
            per >= 1,
    ;
    assert(balanced(d.credited(m)));
    assert forall|j: (Seq<char>, Seq<char>)| #[trigger] b.spaces.contains_key(j) implies balanced(
        b.spaces[j],
    ) by {
        assert(j == k || a.spaces.contains_key(j));
    }
}

/// A credit for nothing changes nothing.
proof fn lemma_no_credit(ns: NsView)
    requires
        ns.used >= 0,
    ensures
        ns.credited(0) == ns,
{
    assert(0 * ns.block_bytes() == 0) by (nonlinear_arith);
}

proof fn lemma_discarded(p: PoolView, flat: Seq<u8>)
    requires
        tidy(p),
        p.by_flat.contains_key(flat),
    ensures
        tidy(p.discarded(flat)),
        p.discarded(flat).by_flat.len() + 1 == p.by_flat.len(),
{
    let q = p.discarded(flat);
    let seq = p.by_flat[flat].seq;
    inactive::remove_keeps_wf(p.inactive, seq, p.freq);
    assert(q.by_flat == p.by_flat.remove(flat));
    assert forall|f: Seq<u8>| #[trigger]
        q.by_flat.contains_key(f) implies q.seq_to_flat.contains_key(q.by_flat[f].seq)
        && q.seq_to_flat[q.by_flat[f].seq] == f by {
        assert(p.by_flat.contains_key(f));
    }
    assert forall|s: SequenceHash| #[trigger]
        q.seq_to_flat.contains_key(s) implies q.by_flat.contains_key(q.seq_to_flat[s])
        && q.by_flat[q.seq_to_flat[s]].seq == s by {
        assert(p.seq_to_flat.contains_key(s));
    }
    assert forall|s: SequenceHash| #[trigger]
        inactive::holds(q.inactive.nodes, s) implies q.seq_to_flat.contains_key(s) && !q.holds(
        s,
    ) by {
        assert(inactive::holds(p.inactive.nodes, s));
        assert(s != seq);
        assert(q.accounts_of(s) == p.accounts_of(s));
    }
}

/// What is discarded is no longer charged.
pub proof fn discarding_is_credited(a: AuthorityView, ids: Seq<KvBlockIdView>)
    requires
        books_balance(a),
    ensures
        books_balance(a.discarded(ids).0),
    decreases ids.len(),
{
    if ids.len() > 0 {
        discarding_is_credited(a, ids.drop_last());
        let (c, r) = a.discarded(ids.drop_last());
        if r is Ok {
            let id = ids.last();
            let k = (id.model_id, id.revision);
            let b = c.discarded_one(id).0;
            match pool::pool_kind_of(id.pool_kind) {
                Err(_) => {},
                Ok(pk) => match c.pool_at(k, pk) {
                    None => {},
                    Some(p) => if p.by_flat.contains_key(id.block_hash) && !p.holds(
                        p.by_flat[id.block_hash].seq,
                    ) {
                        assert(balanced(c.spaces[k]));
                        lemma_discarded(p, id.block_hash);
                        lemma_pool_changed(c, b, k, pk, p.discarded(id.block_hash), 1);
                    },
                },
            }
        }
    }
}

proof fn lemma_accounted(p: PoolView, flat: Seq<u8>, next: RefAccounts)
    requires
        tidy(p),
        p.by_flat.contains_key(flat),
    ensures
        tidy(p.accounted(p.by_flat[flat].seq, p.by_flat[flat].block_id, next)),
{
    let seq = p.by_flat[flat].seq;
    let q = p.accounted(seq, p.by_flat[flat].block_id, next);
    inactive::remove_keeps_wf(p.inactive, seq, p.freq);
    inactive::insert_keeps_wf(p.inactive, seq, p.by_flat[flat].block_id, p.freq);
    let ins = p.inactive.inserted(seq, p.by_flat[flat].block_id, p.freq);
    assert forall|s: SequenceHash| #[trigger] inactive::holds(ins.nodes, s) implies s == seq
        || inactive::holds(p.inactive.nodes, s) by {
        let i = choose|i: int| 0 <= i < ins.nodes.len() && (#[trigger] ins.nodes[i]).seq == s;
        if i < p.inactive.nodes.len() {
            assert(p.inactive.nodes[i].seq == s);
        }
    }
    assert(q.by_flat == p.by_flat && q.seq_to_flat == p.seq_to_flat);
    assert(paired(q));
    assert forall|s: SequenceHash| #[trigger]
        inactive::holds(q.inactive.nodes, s) implies q.seq_to_flat.contains_key(s) && !q.holds(
        s,
    ) by {
        if s == seq {
            assert(q.accounts_of(s) == next);
            if p.holds(seq) && next.total() > 0 {
                assert(inactive::holds(p.inactive.nodes, seq));
            }
        } else {
            assert(inactive::holds(p.inactive.nodes, s));
            assert(q.accounts_of(s) == p.accounts_of(s));
        }
    }
}

proof fn lemma_ref_moved(
    a: AuthorityView,
    id: Option<KvBlockIdView>,
    kind: i32,
    delta: int,
    node_id: Seq<char>,
)
    requires
        books_balance(a),
    ensures
        a.ref_moved(id, kind, delta, node_id) matches Ok(b) ==> books_balance(b),
{
    if a.ref_moved(id, kind, delta, node_id) is Ok {
        let t = a.ref_target(id)->Ok_0;
        let flat = id->0.block_hash;
        let p = a.spaces[t.key].pool(t.pool_kind)->0;
        let next = refs::bumped(
            a.accounts_at(t),
            pool::ref_kind_of(kind)->Ok_0,
            delta,
            "ref_count"@,
        )->Ok_0;
        assert(balanced(a.spaces[t.key]));
        lemma_accounted(p, flat, next);
        let q = p.accounted(t.seq, p.by_flat[flat].block_id, next);
        let b = a.refs_set(t, flat, next);
        let d = a.spaces[t.key].with_pool(t.pool_kind, q);
        assert(0 <= a.spaces[t.key].block_count() * a.spaces[t.key].block_bytes())
            by (nonlinear_arith)
            requires
                a.spaces[t.key].block_count() >= 0,
                a.spaces[t.key].block_bytes() >= 1,
        ;
        lemma_no_credit(d);
        assert(b.spaces =~= a.spaces.insert(t.key, d.credited(0)));
        lemma_pool_changed(a, b, t.key, t.pool_kind, q, 0);
        assert(a.ref_moved(id, kind, delta, node_id)->Ok_0.spaces == b.spaces);
    }
}

/// Referencing blocks and letting go of them changes no charge.
pub proof fn references_are_free_of_charge(a: AuthorityView, ds: Seq<RefDeltaView>)
    requires
        books_balance(a),
    ensures
        a.refs_reported(ds) matches Ok(b) ==> books_balance(b),
    decreases ds.len(),
{
    if ds.len() > 0 {
        references_are_free_of_charge(a, ds.drop_last());
        match a.refs_reported(ds.drop_last()) {
            Err(_) => {},
            Ok(c) => {
                let d = ds.last();
                lemma_ref_moved(c, d.id, d.kind, d.delta as int, d.node_id);
            },
        }
    }
}

/// Models come without blocks, keep their blocks when they are registered again, and
/// leave with all that they were charged.
pub proof fn models_keep_the_books(
    a: AuthorityView,
    desc: ModelDescriptorView,
    model_id: Seq<char>,
    revision: Seq<char>,
)
    requires
        books_balance(a),
    ensures
        books_balance(a.model_registered(desc).0),
        books_balance(a.model_deregistered(model_id, revision).0),
{
    let k = (desc.model_id, desc.revision);
    let b = a.model_registered(desc).0;
    if b.spaces != a.spaces {
        assert(balanced(b.spaces[k])) by {
            if a.spaces.contains_key(k) {
                assert(balanced(a.spaces[k]));
            } else {
                assert(0 * b.spaces[k].block_bytes() == 0) by (nonlinear_arith);
            }
        }
        assert forall|j: (Seq<char>, Seq<char>)| #[trigger]
            b.spaces.contains_key(j) implies balanced(b.spaces[j]) by {
            assert(j == k || a.spaces.contains_key(j));
        }
    }
    let c = a.model_deregistered(model_id, revision).0;
    assert forall|j: (Seq<char>, Seq<char>)| #[trigger] c.spaces.contains_key(j) implies balanced(
        c.spaces[j],
    ) by {
        assert(a.spaces.contains_key(j));
    }
}

/// One pool is another with records rewritten: the same blocks under the same lineages,
/// referenced as before.
spec fn rewritten(p: PoolView, q: PoolView) -> bool {
    &&& q.by_flat.dom() == p.by_flat.dom()
    &&& forall|f: Seq<u8>| #[trigger]
        q.by_flat.contains_key(f) ==> q.by_flat[f].seq == p.by_flat[f].seq
    &&& q.seq_to_flat == p.seq_to_flat
    &&& q.refs == p.refs
    &&& q.inactive == p.inactive
}

proof fn lemma_rewritten(p: PoolView, q: PoolView)
    requires
        rewritten(p, q),
    ensures
        paired(p) ==> paired(q),
        tidy(p) ==> tidy(q),
        q.by_flat.len() == p.by_flat.len(),
{
    assert forall|s: SequenceHash| #[trigger] q.holds(s) == p.holds(s) by {
        assert(q.accounts_of(s) == p.accounts_of(s));
    }
    if paired(p) {
        assert forall|f: Seq<u8>| #[trigger]
            q.by_flat.contains_key(f) implies q.seq_to_flat.contains_key(q.by_flat[f].seq)
            && q.seq_to_flat[q.by_flat[f].seq] == f by {
            assert(p.by_flat.contains_key(f));
        }
        assert forall|s: SequenceHash| #[trigger]
            q.seq_to_flat.contains_key(s) implies q.by_flat.contains_key(q.seq_to_flat[s])
            && q.by_flat[q.seq_to_flat[s]].seq == s by {
            assert(p.by_flat.contains_key(p.seq_to_flat[s]));
            assert(q.by_flat.contains_key(p.seq_to_flat[s]));
        }
    }
}

/// Rewriting the records of a pool keeps the books.
proof fn lemma_pool_rewritten(
    a: AuthorityView,
    b: AuthorityView,
    k: (Seq<char>, Seq<char>),
    pk: i32,
    q: PoolView,
)
    requires
        books_balance(a),
        a.spaces.contains_key(k),
        a.spaces[k].pool(pk) is Some,
        rewritten(a.spaces[k].pool(pk)->0, q),
        b.spaces == a.spaces.insert(k, a.spaces[k].with_pool(pk, q)),
    ensures
        books_balance(b),
{
    let ns = a.spaces[k];
    lemma_rewritten(ns.pool(pk)->0, q);
    assert(0 <= ns.block_count() * ns.block_bytes()) by (nonlinear_arith)
        requires
            ns.block_count() >= 0,
            ns.block_bytes() >= 1,
    ;
    let d = ns.with_pool(pk, q);
    lemma_no_credit(d);
    lemma_pool_changed(a, b, k, pk, q, 0);
}

/// Telling where blocks are changes no charge.
pub proof fn locations_are_free_of_charge(
    a: AuthorityView,
    k: (Seq<char>, Seq<char>),
    raw_kind: i32,
    flat: Seq<u8>,
    l: LocationView,
    present: bool,
)
    requires
        books_balance(a),
    ensures
        books_balance(a.location_published(k, raw_kind, flat, l, present).0),
        books_balance(a.l3_set(k, raw_kind, flat, present).0),
{
    if pool::pool_kind_of(raw_kind) is Ok && a.spaces.contains_key(k) {
        let pk = pool::pool_kind_of(raw_kind)->Ok_0;
        if a.spaces[k].pool(pk) is Some && a.spaces[k].pool(pk)->0.by_flat.contains_key(flat) {
            let p = a.spaces[k].pool(pk)->0;
            let q = p.published(flat, l, present);
            assert(q.by_flat.dom() =~= p.by_flat.dom());
            lemma_pool_rewritten(
                a,
                a.location_published(k, raw_kind, flat, l, present).0,
                k,
                pk,
                q,
            );
            let meta = BlockMetaView { l3_present: present, ..p.by_flat[flat].meta };
            assert(p.updated(flat, meta).by_flat.dom() =~= p.by_flat.dom());
            lemma_pool_rewritten(
                a,
                a.l3_set(k, raw_kind, flat, present).0,
                k,
                pk,
                p.updated(flat, meta),
            );
        }
    }
}

/// No lineage was peeled twice.
spec fn peels_differ(peels: Seq<PeelView>) -> bool {
    forall|i: int, j: int|
        0 <= i < peels.len() && 0 <= j < peels.len() && i != j ==> (#[trigger] peels[i]).node.seq
            != (#[trigger] peels[j]).node.seq
}

/// Every peel names the block of its lineage.
spec fn peels_name(p: PoolView, peels: Seq<PeelView>) -> bool {
    forall|i: int|
        0 <= i < peels.len() ==> p.seq_to_flat.contains_key((#[trigger] peels[i]).node.seq)
            && p.seq_to_flat[peels[i].node.seq] == peels[i].flat
}

proof fn lemma_peeled(
    p: PoolView,
    k: (Seq<char>, Seq<char>),
    pk: i32,
    victims: Seq<Node>,
)
    requires
        paired(p),
        distinct(victims),
    ensures
        ({
            let (q, peels) = reconcile::peeled(p, k, pk, victims);
            &&& rewritten(p, q)
            &&& peels_name(p, peels)
            &&& peels_differ(peels)
            &&& forall|i: int|
                0 <= i < peels.len() ==> inactive::holds(victims, (#[trigger] peels[i]).node.seq)
        }),
    decreases victims.len(),
{
    if victims.len() > 0 {
        let init = victims.drop_last();
        let last = victims.last();
        assert(distinct(init)) by {
            assert forall|i: int, j: int|
                0 <= i < init.len() && 0 <= j < init.len() && i != j implies (
            #[trigger] init[i]).seq != (#[trigger] init[j]).seq by {
                assert(victims[i].seq != victims[j].seq);
            }
        }
        lemma_peeled(p, k, pk, init);
        let (q, peels) = reconcile::peeled(p, k, pk, init);
        lemma_rewritten(p, q);
        let (r, peel) = reconcile::peeled_one(q, k, pk, last);
        let all = reconcile::peeled(p, k, pk, victims).1;
        assert(victims[victims.len() - 1] == last);
        assert forall|i: int| 0 <= i < peels.len() implies inactive::holds(
            victims,
            (#[trigger] peels[i]).node.seq,
        ) && peels[i].node.seq != last.seq by {
            let s = peels[i].node.seq;
            let j = choose|j: int| 0 <= j < init.len() && (#[trigger] init[j]).seq == s;
            assert(victims[j].seq == s);
            assert(victims[j].seq != victims[victims.len() - 1].seq);
        }
        if peel is Some {
            let x = peel->0;
            assert(q.by_flat.contains_key(x.flat));
            assert(r.by_flat.dom() =~= q.by_flat.dom());
            assert(x.node == last);
            assert(inactive::holds(victims, last.seq));
            assert forall|i: int| 0 <= i < all.len() implies inactive::holds(
                victims,
                (#[trigger] all[i]).node.seq,
            ) && p.seq_to_flat.contains_key(all[i].node.seq) && p.seq_to_flat[all[i].node.seq]
                == all[i].flat by {
                if i < peels.len() {
                    assert(all[i] == peels[i]);
                }
            }
            assert forall|i: int, j: int|
                0 <= i < all.len() && 0 <= j < all.len() && i != j implies (
            #[trigger] all[i]).node.seq != (#[trigger] all[j]).node.seq by {
                if i < peels.len() {
                    assert(all[i] == peels[i]);
                }
                if j < peels.len() {
                    assert(all[j] == peels[j]);
                }
            }
        }
    }
}

/// A peel that is not durable carries the lineage.
spec fn cast(peels: Seq<PeelView>, s: SequenceHash) -> bool {
    exists|i: int|
        0 <= i < peels.len() && (#[trigger] peels[i]).node.seq == s && !peels[i].durable
}

proof fn lemma_cast_off(p: PoolView, peels: Seq<PeelView>)
    requires
        paired(p),
        p.inactive.wf(),
        peels_name(p, peels),
        peels_differ(peels),
    ensures
        ({
            let (q, ids, flats) = reconcile::cast_off(p, peels);
            &&& paired(q)
            &&& q.inactive.wf()
            &&& q.by_flat.len() + ids.len() == p.by_flat.len()
            &&& forall|s: SequenceHash| #[trigger]
                inactive::holds(q.inactive.nodes, s) ==> inactive::holds(p.inactive.nodes, s)
            &&& forall|s: SequenceHash| #[trigger]
                q.seq_to_flat.contains_key(s) <==> p.seq_to_flat.contains_key(s) && !cast(peels, s)
            &&& forall|s: SequenceHash|
                #![trigger q.seq_to_flat[s]]
                q.seq_to_flat.contains_key(s) ==> q.seq_to_flat[s] == p.seq_to_flat[s]
            &&& forall|s: SequenceHash|
                !#[trigger] cast(peels, s) ==> q.accounts_of(s) == p.accounts_of(s)
        }),
    decreases peels.len(),
{
    if peels.len() == 0 {
        assert forall|s: SequenceHash| !#[trigger] cast(peels, s) by {
        }
    } else {
        let init = peels.drop_last();
        let x = peels.last();
        let seq = x.node.seq;
        assert(peels_name(p, init)) by {
            assert forall|i: int| 0 <= i < init.len() implies p.seq_to_flat.contains_key(
                (#[trigger] init[i]).node.seq,
            ) && p.seq_to_flat[init[i].node.seq] == init[i].flat by {
                assert(init[i] == peels[i]);
            }
        }
        assert(peels_differ(init)) by {
            assert forall|i: int, j: int|
                0 <= i < init.len() && 0 <= j < init.len() && i != j implies (
            #[trigger] init[i]).node.seq != (#[trigger] init[j]).node.seq by {
                assert(peels[i].node.seq != peels[j].node.seq);
            }
        }
        lemma_cast_off(p, init);
        let (q, ids, flats) = reconcile::cast_off(p, init);
        let (r, more, _) = reconcile::cast_off(p, peels);
        assert(peels[peels.len() - 1] == x);
        assert(!cast(init, seq)) by {
            if cast(init, seq) {
                let i = choose|i: int|
                    0 <= i < init.len() && (#[trigger] init[i]).node.seq == seq && !init[i].durable;
                assert(peels[i].node.seq != peels[peels.len() - 1].node.seq);
            }
        }
        assert forall|s: SequenceHash| #[trigger] cast(peels, s) == (cast(init, s) || (s == seq
            && !x.durable)) by {
            if cast(peels, s) {
                let i = choose|i: int|
                    0 <= i < peels.len() && (#[trigger] peels[i]).node.seq == s
                        && !peels[i].durable;
                if i < init.len() {
                    assert(init[i].node.seq == s);
                }
            }
            if cast(init, s) {
                let i = choose|i: int|
                    0 <= i < init.len() && (#[trigger] init[i]).node.seq == s && !init[i].durable;
                assert(peels[i].node.seq == s);
            }
            if s == seq && !x.durable {
                assert(peels[peels.len() - 1].node.seq == s);
            }
        }
        assert(q.seq_to_flat.contains_key(seq));
        assert(q.seq_to_flat[seq] == x.flat);
        assert(q.by_flat.contains_key(x.flat) && q.by_flat[x.flat].seq == seq);
        if !x.durable {
            inactive::remove_keeps_wf(q.inactive, seq, q.freq);
            assert(r.by_flat == q.by_flat.remove(x.flat));
            assert(r.seq_to_flat == q.seq_to_flat.remove(seq));
            assert(paired(r)) by {
                assert forall|f: Seq<u8>| #[trigger]
                    r.by_flat.contains_key(f) implies r.seq_to_flat.contains_key(r.by_flat[f].seq)
                    && r.seq_to_flat[r.by_flat[f].seq] == f by {
                    assert(q.by_flat.contains_key(f));
                }
                assert forall|s: SequenceHash| #[trigger]
                    r.seq_to_flat.contains_key(s) implies r.by_flat.contains_key(r.seq_to_flat[s])
                    && r.by_flat[r.seq_to_flat[s]].seq == s by {
                    assert(q.seq_to_flat.contains_key(s));
                }
            }
            assert forall|s: SequenceHash| !#[trigger] cast(peels, s) implies r.accounts_of(s)
                == p.accounts_of(s) by {
                assert(q.accounts_of(s) == p.accounts_of(s));
            }
            assert forall|s: SequenceHash| #[trigger]
                inactive::holds(r.inactive.nodes, s) implies inactive::holds(
                p.inactive.nodes,
                s,
            ) by {
                assert(inactive::holds(q.inactive.nodes, s));
            }
            assert forall|s: SequenceHash|
                #![trigger r.seq_to_flat[s]]
                r.seq_to_flat.contains_key(s) implies r.seq_to_flat[s] == p.seq_to_flat[s] by {
                assert(q.seq_to_flat[s] == p.seq_to_flat[s]);
            }
        } else {
            assert(r == q);
        }
    }
}

proof fn lemma_reentered(p: PoolView, peels: Seq<PeelView>)
    requires
        tidy(p),
        forall|i: int|
            0 <= i < peels.len() && (#[trigger] peels[i]).durable ==> p.seq_to_flat.contains_key(
                peels[i].node.seq,
            ),
    ensures
        ({
            let q = reconcile::reentered(p, peels);
            tidy(q) && q.by_flat == p.by_flat && q.seq_to_flat == p.seq_to_flat && q.refs == p.refs
        }),
    decreases peels.len(),
{
    if peels.len() > 0 {
        let init = peels.drop_last();
        assert forall|i: int| 0 <= i < init.len() && (
        #[trigger] init[i]).durable implies p.seq_to_flat.contains_key(init[i].node.seq) by {
            assert(peels[i] == init[i]);
        }
        lemma_reentered(p, init);
        let q = reconcile::reentered(p, init);
        let x = peels.last();
        assert(peels[peels.len() - 1] == x);
        if x.durable && !q.holds(x.node.seq) {
            let seq = x.node.seq;
            let r = q.entered(seq, x.node.block_id);
            inactive::insert_keeps_wf(q.inactive, seq, x.node.block_id, q.freq);
            let ins = q.inactive.inserted(seq, x.node.block_id, q.freq);
            assert forall|s: SequenceHash| #[trigger]
                inactive::holds(r.inactive.nodes, s) implies r.seq_to_flat.contains_key(s)
                && !r.holds(s) by {
                assert(r.accounts_of(s) == q.accounts_of(s));
                if r.inactive == ins {
                    let i = choose|i: int|
                        0 <= i < ins.nodes.len() && (#[trigger] ins.nodes[i]).seq == s;
                    if i < q.inactive.nodes.len() {
                        assert(q.inactive.nodes[i].seq == s);
                        assert(inactive::holds(q.inactive.nodes, s));
                    }
                }
            }
        }
    }
}

/// Blocks that a collection gives up are no longer charged, and what it only cools is
/// charged as before.
pub proof fn collection_is_credited(
    a: AuthorityView,
    k: (Seq<char>, Seq<char>),
    raw_kind: i32,
    n: nat,
)
    requires
        books_balance(a),
    ensures
        books_balance(a.collected(k, raw_kind, n).0),
{
    if n > 0 && pool::pool_kind_of(raw_kind) is Ok && a.spaces.contains_key(k) {
        let pk = pool::pool_kind_of(raw_kind)->Ok_0;
        match a.spaces[k].pool(pk) {
            None => {},
            Some(p) => {
                assert(balanced(a.spaces[k]));
                let (rest, victims) = p.inactive.allocated(n, p.freq);
                inactive::allocation_is_complete(p.inactive, n, p.freq);
                lemma_allocated(p.inactive, n, p.freq);
                let p0 = PoolView { inactive: rest, ..p };
                assert(paired(p0)) by {
                    assert(paired(p));
                }
                lemma_peeled(p0, k, pk, victims);
                let (q, peels) = reconcile::peeled(p0, k, pk, victims);
                lemma_rewritten(p0, q);
                assert(peels_name(q, peels));
                lemma_cast_off(q, peels);
                let (r, gone, flats) = reconcile::cast_off(q, peels);
                assert(spare(r)) by {
                    assert forall|s: SequenceHash| #[trigger]
                        inactive::holds(r.inactive.nodes, s) implies r.seq_to_flat.contains_key(s)
                        && !r.holds(s) by {
                        assert(inactive::holds(q.inactive.nodes, s));
                        assert(inactive::holds(rest.nodes, s));
                        assert(inactive::holds(p.inactive.nodes, s));
                        if cast(peels, s) {
                            let i = choose|i: int|
                                0 <= i < peels.len() && (#[trigger] peels[i]).node.seq == s
                                    && !peels[i].durable;
                            assert(inactive::holds(victims, peels[i].node.seq));
                        }
                        assert(r.accounts_of(s) == q.accounts_of(s));
                        assert(q.accounts_of(s) == p.accounts_of(s));
                    }
                }
                assert forall|i: int| 0 <= i < peels.len() && (
                #[trigger] peels[i]).durable implies r.seq_to_flat.contains_key(
                    peels[i].node.seq,
                ) by {
                    let s = peels[i].node.seq;
                    if cast(peels, s) {
                        let j = choose|j: int|
                            0 <= j < peels.len() && (#[trigger] peels[j]).node.seq == s
                                && !peels[j].durable;
                        assert(peels[i].node.seq != peels[j].node.seq);
                    }
                }
                lemma_reentered(r, peels);
                lemma_pool_changed(
                    a,
                    a.collected(k, raw_kind, n).0,
                    k,
                    pk,
                    reconcile::reentered(r, peels),
                    gone.len(),
                );
            },
        }
    }
}

proof fn lemma_released_one(a: AuthorityView, b: BlockKeyView, kind: RefKind, n: i64)
    requires
        books_balance(a),
    ensures
        books_balance(a.released(b, kind, n)),
{
    let left = a.refs_to(b, kind);
    lemma_ref_moved(
        a,
        Some(b.id()),
        kind.spec_number(),
        -(if n < left {
            n
        } else {
            left
        }) as int,
        Seq::empty(),
    );
}

proof fn lemma_released(
    a: AuthorityView,
    held: Map<BlockKeyView, RefAccounts>,
    blocks: Seq<BlockKeyView>,
)
    requires
        books_balance(a),
    ensures
        books_balance(a.released_all(held, blocks)),
    decreases blocks.len(),
{
    if blocks.len() > 0 {
        let b = blocks.last();
        lemma_released(a, held, blocks.drop_last());
        let c = a.released_all(held, blocks.drop_last());
        lemma_released_one(c, b, RefKind::Request, held[b].request);
        let d = c.released(b, RefKind::Request, held[b].request);
        lemma_released_one(d, b, RefKind::Writeback, held[b].writeback);
    }
}

proof fn lemma_taken_off(a: AuthorityView, node_id: Seq<char>, blocks: Seq<BlockKeyView>)
    requires
        books_balance(a),
        forall|i: int| 0 <= i < blocks.len() ==> a.has_block(#[trigger] blocks[i]),
    ensures
        books_balance(a.taken_off(node_id, blocks).0),
        forall|x: BlockKeyView| #[trigger]
            a.taken_off(node_id, blocks).0.has_block(x) == a.has_block(x),
        a.taken_off(node_id, blocks).0.spaces.dom() == a.spaces.dom(),
    decreases blocks.len(),
{
    if blocks.len() > 0 {
        let init = blocks.drop_last();
        assert forall|i: int| 0 <= i < init.len() implies a.has_block(#[trigger] init[i]) by {
            assert(init[i] == blocks[i]);
        }
        lemma_taken_off(a, node_id, init);
        let c = a.taken_off(node_id, init).0;
        let d = a.taken_off(node_id, blocks).0;
        let b = blocks.last();
        assert(a.has_block(blocks[blocks.len() - 1]));
        assert(c.has_block(b));
        if d != c {
            let p = c.pool_at(b.space(), b.pool_kind)->0;
            let q = p.off_node(b.flat, node_id);
            assert(q.by_flat.dom() =~= p.by_flat.dom());
            lemma_pool_rewritten(c, d, b.space(), b.pool_kind, q);
            assert(d.spaces.dom() =~= c.spaces.dom());
            assert forall|x: BlockKeyView| #[trigger] d.has_block(x) == a.has_block(x) by {
                assert(c.has_block(x) == a.has_block(x));
            }
        }
    }
}

proof fn lemma_unmarked(
    a: AuthorityView,
    node_id: Seq<char>,
    names: Seq<(Seq<char>, Seq<char>)>,
)
    requires
        books_balance(a),
        forall|i: int| 0 <= i < names.len() ==> a.spaces.contains_key(#[trigger] names[i]),
    ensures
        books_balance(a.unmarked_all(node_id, names)),
        a.unmarked_all(node_id, names).spaces.dom() == a.spaces.dom(),
    decreases names.len(),
{
    if names.len() > 0 {
        let init = names.drop_last();
        assert forall|i: int| 0 <= i < init.len() implies a.spaces.contains_key(
            #[trigger] init[i],
        ) by {
            assert(init[i] == names[i]);
        }
        lemma_unmarked(a, node_id, init);
        let c = a.unmarked_all(node_id, init);
        let k = names.last();
        assert(a.spaces.contains_key(names[names.len() - 1]));
        let d = a.unmarked_all(node_id, names);
        assert(balanced(c.spaces[k]));
        if c.spaces[k].target is Some {
            lemma_rewritten(c.spaces[k].target->0, d.spaces[k].target->0);
        }
        if c.spaces[k].draft is Some {
            lemma_rewritten(c.spaces[k].draft->0, d.spaces[k].draft->0);
        }
        assert(d.spaces.dom() =~= c.spaces.dom());
        assert forall|j: (Seq<char>, Seq<char>)| #[trigger]
            d.spaces.contains_key(j) implies balanced(d.spaces[j]) by {
            assert(c.spaces.contains_key(j));
        }
    }
}

/// A lost node changes no charge: no block is forgotten on its account.
pub proof fn lost_nodes_are_free_of_charge(a: AuthorityView, node_id: Seq<char>)
    requires
        books_balance(a),
    ensures
        books_balance(a.node_lost(node_id).0),
{
    if node_id.len() > 0 {
        let held = if a.node_refs.contains_key(node_id) {
            a.node_refs[node_id]
        } else {
            Map::empty()
        };
        let list = listing::listing::<BlockKey>(held.dom());
        let a0 = AuthorityView { node_refs: a.node_refs.remove(node_id), ..a };
        let a1 = a0.released_all(held, list);
        lemma_released(a0, held, list);
        lemma_finite(a1);
        let blocks = a1.all_blocks();
        assert forall|i: int| 0 <= i < blocks.len() implies a1.has_block(#[trigger] blocks[i]) by {
            blocks::all_blocks_known(a1, i);
        }
        lemma_taken_off(a1, node_id, blocks);
        let b = a1.taken_off(node_id, blocks).0;
        listing::listing_lists::<NamespaceKey>(b.spaces.dom());
        assert forall|i: int| 0 <= i < b.names().len() implies b.spaces.contains_key(
            #[trigger] b.names()[i],
        ) by {
            assert(b.names().to_set().contains(b.names()[i]));
        }
        lemma_unmarked(b, node_id, b.names());
    }
}

proof fn lemma_finite(a: AuthorityView)
    requires
        books_balance(a),
    ensures
        a.finite(),
{
    assert forall|k: (Seq<char>, Seq<char>), pk: i32|
        (#[trigger] a.pool_at(k, pk)) is Some implies a.pool_at(k, pk)->0.by_flat.dom().finite() by {
        assert(balanced(a.spaces[k]));
    }
}

/// So many blocks hold the bytes, and one fewer does not.
proof fn lemma_blocks_for(bytes: int, per: int)
    requires
        bytes >= 0,
        per >= 1,
    ensures
        admission::blocks_for(bytes, per) >= 0,
        admission::blocks_for(bytes, per) * per >= bytes,
        bytes > 0 ==> admission::blocks_for(bytes, per) >= 1 && (admission::blocks_for(bytes, per)
            - 1) * per < bytes,
        bytes == 0 ==> admission::blocks_for(bytes, per) == 0,
{
    let b = admission::blocks_for(bytes, per);
    let x = bytes + per - 1;
    vstd::arithmetic::div_mod::lemma_fundamental_div_mod(x, per);
    vstd::arithmetic::div_mod::lemma_mod_bound(x, per);
    assert(per * b == b * per && (b - 1) * per == b * per - per) by (nonlinear_arith);
    if bytes == 0 {
        vstd::arithmetic::div_mod::lemma_basic_div(per - 1, per);
    } else {
        assert(b >= 1) by (nonlinear_arith)
            requires
                b * per >= bytes,
                bytes > 0,
                per >= 1,
        ;
    }
}

/// A batch with new blocks was let in, in numbers that can be counted, and room for it was
/// not made at the expense of its own blocks.
pub open spec fn let_in(
    a: AuthorityView,
    node_id: Seq<char>,
    prefix: Seq<Seq<u8>>,
    metas: Seq<BlockMetaView>,
    k: (Seq<char>, Seq<char>),
    pk: i32,
) -> bool {
    &&& books_balance(a)
    &&& prefix.len() <= 16_777_216
    &&& metas.len() > 0
    &&& register::batch_verdict(register::ids_of(metas), prefix) == Ok::<
        ((Seq<char>, Seq<char>), i32),
        Seq<char>,
    >((k, pk))
    &&& a.registered(node_id, prefix, metas).1 == Ok::<RegisterStatusView, Seq<char>>(
        RegisterStatusView::Accepted,
    )
    &&& fits_in(a.spaces[k].pool_or_new(pk), prefix, metas)
    &&& countable(a, k, metas.len())
    &&& new_blocks(a, k, pk, metas).len() > 0
    &&& spares_its_own(a, k, pk, metas, a.plan(k, new_blocks(a, k, pk, metas).len())->Ok_0)
}

/// What a batch that is let in adds to the charge, and what making room takes off it.
proof fn lemma_let_in(
    a: AuthorityView,
    node_id: Seq<char>,
    prefix: Seq<Seq<u8>>,
    metas: Seq<BlockMetaView>,
    k: (Seq<char>, Seq<char>),
    pk: i32,
) -> (own: nat)
    requires
        let_in(a, node_id, prefix, metas, k, pk),
    ensures
        ({
            let was = a.spaces[k];
            let is = a.registered(node_id, prefix, metas).0.spaces[k];
            let per = was.block_bytes();
            let asked = was.used + new_blocks(a, k, pk, metas).len() * per;
            let hard = admission::over(was.quota().hard_bytes, asked);
            let soft = admission::over(was.quota().soft_bytes, asked);
            let need = if hard >= soft {
                hard
            } else {
                soft
            };
            &&& own <= was.inactive_len()
            &&& own == was.inactive_len() || own == admission::blocks_for(need, per)
            &&& own <= admission::blocks_for(need, per)
            &&& is.used == asked - own * per
            &&& is.inactive_len() == was.inactive_len() - own
            &&& per >= 1
            &&& need >= 0
        }),
{
    let was = a.spaces[k];
    let per = was.block_bytes();
    let unknown = admission::unknown_flats(was.pool(pk), batch_hashes(metas));
    let n = unknown.len();
    let plan = a.plan(k, n)->Ok_0;
    let c = a.admitted(k, plan);
    let (own, reclaim) = match plan {
        AdmitPlanView::Accept { own, reclaim } => (own, reclaim),
        AdmitPlanView::Reject(_) => (0, 0),
    };
    assert(plan is Accept);
    lemma_admitted(a, k, plan);
    lemma_room(a, k, pk, plan);
    lemma_batch_kept(a, c, k, pk, node_id, prefix, metas, plan);
    eviction_is_credited(was, own);
    let p = c.spaces[k].pool_or_new(pk);
    let now = admission::unknown_flats(Some(p), batch_hashes(metas));
    assert(now =~= unknown) by {
        assert forall|f: Seq<u8>| #[trigger] now.contains(f) == unknown.contains(f) by {
            let hs = batch_hashes(metas);
            assert(hs.to_set().contains(f) == laws::names_block(metas, f));
            if laws::names_block(metas, f) {
                assert(admission::known(was.pool(pk), f) ==> admission::known(
                    c.spaces[k].pool(pk),
                    f,
                ));
                if p.by_flat.contains_key(f) {
                    assert(was.pool_or_new(pk).by_flat.contains_key(f));
                }
            }
        }
    }
    lemma_new_blocks_fit(a, k, pk, metas);
    assert(own * per >= 0) by (nonlinear_arith)
        requires
            per >= 1,
            own >= 0,
    ;
    let asked = was.used + n * per;
    lemma_blocks_for(
        if admission::over(was.quota().hard_bytes, asked) >= admission::over(
            was.quota().soft_bytes,
            asked,
        ) {
            admission::over(was.quota().hard_bytes, asked)
        } else {
            admission::over(was.quota().soft_bytes, asked)
        },
        per,
    );
    if own == 0 {
        assert(own * per == 0) by (nonlinear_arith)
            requires
                own == 0,
        ;
    }
    let b = a.registered(node_id, prefix, metas).0;
    laws::storing_places_blocks(p, node_id, pk, prefix, metas, Seq::empty());
    assert(PoolView::fresh(was.cap).inactive.nodes.len() == 0);
    own
}

/// The bytes of the new blocks of a batch can be counted.
proof fn lemma_new_blocks_fit(
    a: AuthorityView,
    k: (Seq<char>, Seq<char>),
    pk: i32,
    metas: Seq<BlockMetaView>,
)
    requires
        books_balance(a),
        a.spaces.contains_key(k),
        countable(a, k, metas.len()),
    ensures
        ({
            let n = new_blocks(a, k, pk, metas).len();
            let per = a.spaces[k].block_bytes();
            &&& per >= 1
            &&& n <= metas.len()
            &&& quota::clamped(quota::clamped(n as int) * per) == n * per
            &&& 0 <= n * per
            &&& 0 <= a.spaces[k].used
            &&& a.spaces[k].used + n * per <= i64::MAX
        }),
{
    let was = a.spaces[k];
    let per = was.block_bytes();
    let unknown = admission::unknown_flats(was.pool(pk), batch_hashes(metas));
    let n = unknown.len();
    let hs = batch_hashes(metas);
    vstd::seq_lib::seq_to_set_is_finite(hs);
    hs.lemma_cardinality_of_set();
    vstd::set_lib::lemma_len_subset(unknown, hs.to_set());
    lemma_hashes_len(metas);
    let count = was.block_count();
    let more = metas.len();
    assert(0 <= n * per <= (count + more) * per && n <= n * per) by (nonlinear_arith)
        requires
            n <= more,
            per >= 1,
    ;
    assert(count * per == was.used);
    assert((count + more) * per == count * per + more * per && n * per <= more * per && 0 <= count
        * per) by (nonlinear_arith)
        requires
            n <= more,
            per >= 1,
    ;
}

/// Own cold blocks leave before a model stays above its soft limit: a batch with new blocks
/// that is let in leaves the model within the limit, or without a block that could make room.
/// Left out are batches for which room is made at the expense of their own blocks.
pub proof fn soft_limit_is_kept_by_cold_blocks(
    a: AuthorityView,
    node_id: Seq<char>,
    prefix: Seq<Seq<u8>>,
    metas: Seq<BlockMetaView>,
    k: (Seq<char>, Seq<char>),
    pk: i32,
)
    requires
        let_in(a, node_id, prefix, metas, k, pk),
        a.spaces[k].descriptor.quota is Some,
        a.spaces[k].descriptor.quota->0.soft_bytes > 0,
    ensures
        ({
            let b = a.registered(node_id, prefix, metas).0.spaces[k];
            ||| b.used <= a.spaces[k].descriptor.quota->0.soft_bytes
            ||| (b.target is Some ==> b.target->0.inactive.nodes.len() == 0) && (b.draft is Some
                ==> b.draft->0.inactive.nodes.len() == 0)
        }),
{
    let was = a.spaces[k];
    let per = was.block_bytes();
    let own = lemma_let_in(a, node_id, prefix, metas, k, pk);
    let asked = was.used + new_blocks(a, k, pk, metas).len() * per;
    let hard = admission::over(was.quota().hard_bytes, asked);
    let soft = admission::over(was.quota().soft_bytes, asked);
    lemma_blocks_for(
        if hard >= soft {
            hard
        } else {
            soft
        },
        per,
    );
}

/// No block leaves without need: where a batch that is let in makes blocks of its model
/// leave, the model would be above a limit with one block fewer gone.
pub proof fn no_block_leaves_without_need(
    a: AuthorityView,
    node_id: Seq<char>,
    prefix: Seq<Seq<u8>>,
    metas: Seq<BlockMetaView>,
    k: (Seq<char>, Seq<char>),
    pk: i32,
)
    requires
        let_in(a, node_id, prefix, metas, k, pk),
    ensures
        ({
            let was = a.spaces[k];
            let is = a.registered(node_id, prefix, metas).0.spaces[k];
            let gone = was.inactive_len() - is.inactive_len();
            &&& is.used == was.used + (new_blocks(a, k, pk, metas).len() - gone) * was.block_bytes()
            &&& gone > 0 ==> was.descriptor.quota is Some && {
                let q = was.descriptor.quota->0;
                let more = is.used + was.block_bytes();
                (q.soft_bytes > 0 && more > q.soft_bytes) || (q.hard_bytes > 0 && more
                    > q.hard_bytes)
            }
        }),
{
    let was = a.spaces[k];
    let per = was.block_bytes();
    let n = new_blocks(a, k, pk, metas).len();
    let own = lemma_let_in(a, node_id, prefix, metas, k, pk);
    let asked = was.used + n * per;
    let hard = admission::over(was.quota().hard_bytes, asked);
    let soft = admission::over(was.quota().soft_bytes, asked);
    let need = if hard >= soft {
        hard
    } else {
        soft
    };
    lemma_blocks_for(need, per);
    assert((n - own) * per == n * per - own * per) by (nonlinear_arith);
    if own > 0 {
        let most = admission::blocks_for(need, per);
        assert((own - 1) * per <= (most - 1) * per && (own - 1) * per == own * per - per)
            by (nonlinear_arith)
            requires
                own <= most,
                per >= 1,
        ;
    }
}

/// No more blocks may make room than there are.
proof fn lemma_inactive_few(ns: NsView)
    requires
        balanced(ns),
    ensures
        ns.inactive_len() <= ns.block_count(),
        ns.inactive_len() * ns.block_bytes() <= ns.used,
        ns.block_bytes() >= 1,
{
    if ns.target is Some {
        eviction_keeps_order(ns.target->0, ns.target->0.inactive.nodes.len());
    }
    if ns.draft is Some {
        eviction_keeps_order(ns.draft->0, ns.draft->0.inactive.nodes.len());
    }
    let n = ns.inactive_len();
    let c = ns.block_count();
    let per = ns.block_bytes();
    assert(n * per <= c * per) by (nonlinear_arith)
        requires
            n <= c,
            per >= 1,
    ;
}

/// A write is refused only for want of room. New blocks are refused for the hard limit
/// exactly where the model would be above it with all its cold blocks gone, and by how much;
/// where the shared pool has no limit, or the model may not borrow or has no soft limit, that
/// is the only reason.
pub proof fn refused_only_for_want_of_room(
    a: AuthorityView,
    k: (Seq<char>, Seq<char>),
    pk: i32,
    hashes: Seq<Seq<u8>>,
)
    requires
        books_balance(a),
        a.spaces.contains_key(k),
        pk == PoolKind::Target.spec_number() || pk == PoolKind::Draft.spec_number(),
        (a.spaces[k].block_count() + hashes.len()) * a.spaces[k].block_bytes() <= i64::MAX,
        exists|i: int|
            0 <= i < hashes.len() && !admission::known(
                a.spaces[k].pool(pk),
                #[trigger] hashes[i],
            ),
        a.spaces[k].descriptor.quota is Some,
        a.spaces[k].descriptor.quota->0.soft_bytes >= 0,
        a.spaces[k].descriptor.quota->0.hard_bytes >= 0,
    ensures
        ({
            let r = a.preflight(k, pk, hashes);
            let ns = a.spaces[k];
            let q = ns.descriptor.quota->0;
            let n = admission::unknown_flats(ns.pool(pk), hashes).len();
            let most = ns.used + (n - ns.inactive_len()) * ns.block_bytes();
            &&& r is Ok
            &&& q.hard_bytes > 0 && most > q.hard_bytes ==> r->Ok_0
                is RejectedHardQuota && r->Ok_0->RejectedHardQuota_0.reason == "HARD_QUOTA"@
                && r->Ok_0->RejectedHardQuota_0.deficit_bytes == most - q.hard_bytes
                && r->Ok_0->RejectedHardQuota_0.used_bytes == ns.used
            &&& (q.hard_bytes == 0 || most <= q.hard_bytes) && r->Ok_0 is RejectedHardQuota
                ==> r->Ok_0->RejectedHardQuota_0.reason == "POOL_CAPACITY"@ && a.capacity > 0
                && q.borrow_enabled && q.soft_bytes > 0
            &&& (q.hard_bytes == 0 || most <= q.hard_bytes) && (a.capacity <= 0
                || !q.borrow_enabled || q.soft_bytes == 0) ==> r->Ok_0 is Accepted
        }),
{
    let ns = a.spaces[k];
    let q = ns.descriptor.quota->0;
    let unknown = admission::unknown_flats(ns.pool(pk), hashes);
    let n = unknown.len();
    let per = ns.block_bytes();
    let cold = ns.inactive_len();
    vstd::seq_lib::seq_to_set_is_finite(hashes);
    hashes.lemma_cardinality_of_set();
    vstd::set_lib::lemma_len_subset(unknown, hashes.to_set());
    let i = choose|i: int|
        0 <= i < hashes.len() && !admission::known(ns.pool(pk), #[trigger] hashes[i]);
    assert(unknown.contains(hashes[i]));
    assert(n > 0) by {
        assert(unknown.remove(hashes[i]).len() == n - 1);
    }
    lemma_inactive_few(ns);
    let count = ns.block_count();
    let more = hashes.len();
    assert((count + more) * per == count * per + more * per && 0 <= n * per <= more * per && n <= n
        * per && 0 <= count * per && 0 <= cold * per && cold <= cold * per) by (nonlinear_arith)
        requires
            n <= more,
            per >= 1,
    ;
    assert((n - cold) * per == n * per - cold * per) by (nonlinear_arith);
    assert(ns.inactive_bytes() == cold * per);
    let delta = quota::clamped(quota::clamped(n as int) * per);
    assert(delta == n * per);
    let asked = ns.used + delta;
    let hard = admission::over(q.hard_bytes, asked);
    let soft = admission::over(q.soft_bytes, asked);
    let need = if hard >= soft {
        hard
    } else {
        soft
    };
    lemma_blocks_for(need, per);
    let b = admission::blocks_for(need, per);
    let own = if b <= cold {
        b
    } else {
        cold as int
    };
    assert(0 <= own * per <= cold * per) by (nonlinear_arith)
        requires
            0 <= own <= cold,
            per >= 1,
    ;
    let avail = admission::reclaimable(a.spaces, k, a.names());
    lemma_reclaimable_is_positive(a.spaces, k, a.names());
    assert(a.plan(k, n)->Ok_0 == admission::ns_plan(k, ns, n, a.capacity, a.free_bytes(), avail));
    if hard > 0 && cold * per < hard {
    } else {
        let left = ns.used - own * per;
        assert(quota::clamped(ns.used - quota::clamped(own * per)) == left);
        assert(quota::clamped(left + delta) == left + delta);
        assert(q.hard_bytes > 0 ==> left + delta <= q.hard_bytes);
        assert(!(quota::classified(left, delta, q) is HardQuota));
        assert(quota::classified(left, delta, q).signal(k.0, k.1) is None);
        assert(a.free_bytes() >= 0);
    }
}

/// What others can give back is never less than nothing.
proof fn lemma_reclaimable_is_positive(
    spaces: Map<(Seq<char>, Seq<char>), NsView>,
    except: (Seq<char>, Seq<char>),
    names: Seq<(Seq<char>, Seq<char>)>,
)
    ensures
        0 <= admission::reclaimable(spaces, except, names) <= i64::MAX,
    decreases names.len(),
{
    if names.len() > 0 {
        lemma_reclaimable_is_positive(spaces, except, names.drop_last());
        let ns = spaces[names.last()];
        let n = quota::clamped(ns.inactive_len() as int);
        let per = ns.block_bytes();
        assert(0 <= n * per) by (nonlinear_arith)
            requires
                0 <= n,
                per >= 1,
        ;
    }
}

/// The namespace uses more than its soft limit.
pub open spec fn borrows(ns: NsView) -> bool {
    ns.descriptor.quota is Some && ns.descriptor.quota->0.soft_bytes > 0 && ns.used
        > ns.descriptor.quota->0.soft_bytes
}

/// What namespaces give back when asked to.
proof fn lemma_given_back(
    a: AuthorityView,
    except: (Seq<char>, Seq<char>),
    want: int,
    names: Seq<(Seq<char>, Seq<char>)>,
    j: (Seq<char>, Seq<char>),
)
    requires
        books_balance(a),
        names.no_duplicates(),
        forall|i: int| 0 <= i < names.len() ==> a.spaces.contains_key(#[trigger] names[i]),
        0 < want <= i64::MAX,
        admission::total_used(a.spaces, names) <= i64::MAX,
        a.spaces.contains_key(j),
    ensures
        ({
            let (b, freed) = a.reclaimed(except, want, names);
            let avail = admission::reclaimable(a.spaces, except, names);
            &&& freed >= (if want <= avail {
                want
            } else {
                avail
            })
            &&& 0 <= freed
            &&& admission::total_used(b.spaces, names) == admission::total_used(a.spaces, names)
                - freed
            &&& 0 <= admission::total_used(b.spaces, names)
            &&& !names.contains(j) || j == except || !borrows(a.spaces[j]) ==> b.spaces[j]
                == a.spaces[j]
            &&& b.spaces[j] != a.spaces[j] ==> b.spaces[j].used
                > a.spaces[j].descriptor.quota->0.soft_bytes - a.spaces[j].block_bytes()
                && b.spaces[j].used <= a.spaces[j].used
        }),
    decreases names.len(),
{
    lemma_reclaimed(a, except, want, names);
    if names.len() > 0 {
        let init = names.drop_last();
        let k = names.last();
        assert(names[names.len() - 1] == k);
        assert(a.spaces.contains_key(k));
        assert forall|i: int| 0 <= i < init.len() implies a.spaces.contains_key(
            #[trigger] init[i],
        ) by {
            assert(init[i] == names[i]);
        }
        assert(!init.contains(k)) by {
            if init.contains(k) {
                let i = choose|i: int| 0 <= i < init.len() && init[i] == k;
                assert(names[i] == names[names.len() - 1]);
            }
        }
        assert(balanced(a.spaces[k]));
        lemma_inactive_few(a.spaces[k]);
        assert(a.spaces[k].used >= 0) by (nonlinear_arith)
            requires
                a.spaces[k].used == a.spaces[k].block_count() * a.spaces[k].block_bytes(),
                a.spaces[k].block_bytes() >= 1,
        ;
        lemma_given_back(a, except, want, init, k);
        lemma_given_back(a, except, want, init, j);
        lemma_reclaimed(a, except, want, init);
        lemma_reclaimable_is_positive(a.spaces, except, init);
        let (c, freed) = a.reclaimed(except, want, init);
        let (b, all) = a.reclaimed(except, want, names);
        let ns = c.spaces[k];
        assert(ns == a.spaces[k]);
        assert(names.contains(j) == (init.contains(j) || j == k)) by {
            if init.contains(j) {
                let i = choose|i: int| 0 <= i < init.len() && init[i] == j;
                assert(names[i] == j);
            }
            if names.contains(j) {
                let i = choose|i: int| 0 <= i < names.len() && names[i] == j;
                if i < init.len() {
                    assert(init[i] == j);
                }
            }
        }
        if !(k == except || freed >= want || admission::borrowed_by(ns) <= 0) {
            let borrowed = admission::borrowed_by(ns);
            let aim = if want - freed <= borrowed {
                want - freed
            } else {
                borrowed
            };
            let per = ns.block_bytes();
            let n = admission::blocks_for(aim, per) as nat;
            lemma_blocks_for(aim, per);
            eviction_is_credited(ns, n);
            let gone = ns.evicted(n).1.len();
            let cold = ns.inactive_len();
            assert(gone * per <= n * per && (n - 1) * per == n * per - per && 0 <= gone * per
                && cold <= cold * per && 0 <= cold * per) by (nonlinear_arith)
                requires
                    gone <= n,
                    per >= 1,
            ;
            if gone == cold {
                assert(gone * per == cold * per);
            } else {
                assert(gone == n);
            }
            assert(ns.inactive_bytes() == cold * per);
            lemma_total_others(c.spaces, b.spaces, init, k);
            assert(b.spaces[k] == ns.evicted(n).0);
            assert(ns.evicted(n).0.used >= 0) by {
                assert(balanced(ns.evicted(n).0));
                let m = ns.evicted(n).0;
                assert(m.used >= 0) by (nonlinear_arith)
                    requires
                        m.used == m.block_count() * m.block_bytes(),
                        m.block_bytes() >= 1,
                ;
            }
            assert(quota::clamped(freed + gone * per) == freed + gone * per);
        }
    }
}

/// The charges of namespaces that do not change stay.
proof fn lemma_total_others(
    before: Map<(Seq<char>, Seq<char>), NsView>,
    after: Map<(Seq<char>, Seq<char>), NsView>,
    names: Seq<(Seq<char>, Seq<char>)>,
    k: (Seq<char>, Seq<char>),
)
    requires
        !names.contains(k),
        forall|j: (Seq<char>, Seq<char>)| j != k ==> #[trigger] after[j] == before[j],
    ensures
        admission::total_used(after, names) == admission::total_used(before, names),
    decreases names.len(),
{
    if names.len() > 0 {
        let init = names.drop_last();
        assert(names[names.len() - 1] == names.last());
        if init.contains(k) {
            let i = choose|i: int| 0 <= i < init.len() && init[i] == k;
            assert(names[i] == k);
        }
        lemma_total_others(before, after, init, k);
        assert(after[names.last()] == before[names.last()]);
    }
}

/// Those who borrow give back: where room is made for a model, the others together give back
/// what is asked of them, or all that they can. Only models above their soft limit give
/// anything, and none falls below it by a block or more.
pub proof fn borrowers_give_back(
    a: AuthorityView,
    k: (Seq<char>, Seq<char>),
    want: int,
    j: (Seq<char>, Seq<char>),
)
    requires
        books_balance(a),
        a.spaces.contains_key(k),
        a.spaces.contains_key(j),
        0 < want <= i64::MAX,
        admission::total_used(a.spaces, a.names()) <= i64::MAX,
    ensures
        ({
            let b = a.admitted(k, AdmitPlanView::Accept { own: 0, reclaim: want });
            let avail = admission::reclaimable(a.spaces, k, a.names());
            &&& admission::total_used(a.spaces, a.names()) - admission::total_used(
                b.spaces,
                a.names(),
            ) >= (if want <= avail {
                want
            } else {
                avail
            })
            &&& j == k || !borrows(a.spaces[j]) ==> b.spaces[j] == a.spaces[j]
            &&& b.spaces[j].used <= a.spaces[j].used
            &&& b.spaces[j] != a.spaces[j] ==> b.spaces[j].used
                > a.spaces[j].descriptor.quota->0.soft_bytes - a.spaces[j].block_bytes()
        }),
{
    let names = a.names();
    listing::listing_lists::<NamespaceKey>(a.spaces.dom());
    assert forall|i: int| 0 <= i < names.len() implies a.spaces.contains_key(
        #[trigger] names[i],
    ) by {
        assert(names.to_set().contains(names[i]));
    }
    lemma_given_back(a, k, want, names, j);
}

/// The charges together change by as much as that of one namespace does.
proof fn lemma_total_changed(
    before: Map<(Seq<char>, Seq<char>), NsView>,
    after: Map<(Seq<char>, Seq<char>), NsView>,
    names: Seq<(Seq<char>, Seq<char>)>,
    k: (Seq<char>, Seq<char>),
)
    requires
        names.no_duplicates(),
        names.contains(k),
        forall|j: (Seq<char>, Seq<char>)| j != k ==> #[trigger] after[j] == before[j],
    ensures
        admission::total_used(after, names) == admission::total_used(before, names) + after[k].used
            - before[k].used,
    decreases names.len(),
{
    let init = names.drop_last();
    if names.last() == k {
        assert(!init.contains(k)) by {
            if init.contains(k) {
                let i = choose|i: int| 0 <= i < init.len() && init[i] == k;
                assert(names[i] == names[names.len() - 1]);
            }
        }
        lemma_total_others(before, after, init, k);
    } else {
        let i = choose|i: int| 0 <= i < names.len() && names[i] == k;
        assert(init[i] == k);
        lemma_total_changed(before, after, init, k);
        assert(after[names.last()] == before[names.last()]);
    }
}

/// What others can give back does not depend on the one they give it to.
proof fn lemma_reclaimable_others(
    before: Map<(Seq<char>, Seq<char>), NsView>,
    after: Map<(Seq<char>, Seq<char>), NsView>,
    names: Seq<(Seq<char>, Seq<char>)>,
    k: (Seq<char>, Seq<char>),
)
    requires
        forall|j: (Seq<char>, Seq<char>)| j != k ==> #[trigger] after[j] == before[j],
    ensures
        admission::reclaimable(after, k, names) == admission::reclaimable(before, k, names),
    decreases names.len(),
{
    if names.len() > 0 {
        lemma_reclaimable_others(before, after, names.drop_last(), k);
        if names.last() != k {
            assert(after[names.last()] == before[names.last()]);
        }
    }
}

/// What a model borrows of the shared pool is there: where a batch is let in, the model is
/// above its soft limit by no more than was free, and what left to make room for it.
pub proof fn borrowing_is_covered(
    a: AuthorityView,
    node_id: Seq<char>,
    prefix: Seq<Seq<u8>>,
    metas: Seq<BlockMetaView>,
    k: (Seq<char>, Seq<char>),
    pk: i32,
)
    requires
        let_in(a, node_id, prefix, metas, k, pk),
        a.capacity > 0,
        a.spaces[k].descriptor.quota is Some,
        a.spaces[k].descriptor.quota->0.soft_bytes > 0,
        a.spaces[k].descriptor.quota->0.hard_bytes >= 0,
        a.spaces[k].descriptor.quota->0.borrow_enabled,
        admission::total_used(a.spaces, a.names()) <= i64::MAX,
    ensures
        ({
            let b = a.registered(node_id, prefix, metas).0;
            let before = admission::total_used(a.spaces, a.names());
            let after = admission::total_used(b.spaces, a.names());
            let new = new_blocks(a, k, pk, metas).len() * a.spaces[k].block_bytes();
            let free = if a.capacity > before {
                a.capacity - before
            } else {
                0
            };
            b.spaces[k].used - a.spaces[k].descriptor.quota->0.soft_bytes <= free + (before + new
                - after)
        }),
{
    let was = a.spaces[k];
    let q = was.descriptor.quota->0;
    let per = was.block_bytes();
    let n = new_blocks(a, k, pk, metas).len();
    let own = lemma_let_in(a, node_id, prefix, metas, k, pk);
    lemma_new_blocks_fit(a, k, pk, metas);
    lemma_inactive_few(was);
    let plan = a.plan(k, n)->Ok_0;
    let avail = admission::reclaimable(a.spaces, k, a.names());
    lemma_reclaimable_is_positive(a.spaces, k, a.names());
    assert(plan == admission::ns_plan(k, was, n, a.capacity, a.free_bytes(), avail));
    assert(plan is Accept);
    let (mine, reclaim) = match plan {
        AdmitPlanView::Accept { own, reclaim } => (own, reclaim),
        AdmitPlanView::Reject(_) => (0, 0),
    };
    lemma_admitted(a, k, plan);
    eviction_is_credited(was, mine);
    let b = a.registered(node_id, prefix, metas).0;
    let c = a.admitted(k, plan);
    let d = if mine > 0 {
        a.ns_evicted(k, mine)
    } else {
        a
    };
    if mine > 0 {
        lemma_ns_evicted(a, k, mine);
    }
    let names = a.names();
    listing::listing_lists::<NamespaceKey>(a.spaces.dom());
    assert(names.to_set().contains(k));
    assert forall|i: int| 0 <= i < names.len() implies a.spaces.contains_key(
        #[trigger] names[i],
    ) by {
        assert(names.to_set().contains(names[i]));
    }
    assert(d.names() == names);
    lemma_total_changed(a.spaces, d.spaces, names, k);
    assert(0 <= mine * per <= was.used) by {
        let cold = was.inactive_len();
        assert(0 <= mine * per <= cold * per) by (nonlinear_arith)
            requires
                0 <= mine <= cold,
                per >= 1,
        ;
    }
    if mine == 0 {
        assert(mine * per == 0) by (nonlinear_arith)
            requires
                mine == 0,
        ;
    }
    assert(d.spaces[k].used == was.used - mine * per);
    let left = was.used - mine * per;
    assert(quota::clamped(was.used - quota::clamped(mine * per)) == left);
    let projected = left + n * per;
    assert(quota::clamped(projected) == projected);
    let borrow = admission::over(q.soft_bytes, projected);
    let free = a.free_bytes() + mine * per;
    let short = if borrow > free {
        borrow - free
    } else {
        0
    };
    assert(!(quota::classified(left, n * per, q) is HardQuota));
    assert(q.hard_bytes == 0 || projected <= q.hard_bytes);
    assert(short <= avail);
    assert(reclaim == short);
    if reclaim > 0 {
        lemma_reclaimable_others(a.spaces, d.spaces, names, k);
        lemma_given_back(d, k, reclaim, names, k);
    }
    assert(admission::total_used(d.spaces, names) - admission::total_used(c.spaces, names) >= short);
    lemma_total_changed(c.spaces, b.spaces, names, k);
    assert(c.spaces[k].used == left);
    assert(own == mine) by {
        assert(b.spaces[k].inactive_len() == was.inactive_len() - own);
        assert(c.spaces[k].inactive_len() == was.inactive_len() - mine);
        let p = c.spaces[k].pool_or_new(pk);
        laws::storing_places_blocks(p, node_id, pk, prefix, metas, Seq::empty());
        assert(PoolView::fresh(was.cap).inactive.nodes.len() == 0);
    }
    assert(b.spaces[k].used == projected);
}

/// The charges together are the sum of all: without a namespace there are none, and they
/// change as the charge of any one of them does.
pub proof fn usage_adds_up(
    spaces: Map<(Seq<char>, Seq<char>), NsView>,
    names: Seq<(Seq<char>, Seq<char>)>,
    k: (Seq<char>, Seq<char>),
    used: i64,
)
    requires
        names.no_duplicates(),
    ensures
        admission::total_used(spaces, Seq::empty()) == 0,
        admission::total_used(spaces.insert(k, NsView { used, ..spaces[k] }), names)
            - admission::total_used(spaces, names) == if names.contains(k) {
            used - spaces[k].used
        } else {
            0
        },
    decreases names.len(),
{
    if names.len() > 0 {
        let init = names.drop_last();
        usage_adds_up(spaces, init, k, used);
        assert(names[names.len() - 1] == names.last());
        if init.contains(k) {
            let i = choose|i: int| 0 <= i < init.len() && init[i] == k;
            assert(names[i] == k);
        }
        if names.contains(k) {
            let i = choose|i: int| 0 <= i < names.len() && names[i] == k;
            if i < init.len() {
                assert(init[i] == k);
            }
        }
    }
}

/// What others can give back is at least what any one of them can.
proof fn lemma_each_gives_back(
    spaces: Map<(Seq<char>, Seq<char>), NsView>,
    except: (Seq<char>, Seq<char>),
    names: Seq<(Seq<char>, Seq<char>)>,
    m: (Seq<char>, Seq<char>),
    want: int,
)
    requires
        names.contains(m),
        m != except,
        0 < want <= admission::borrowed_by(spaces[m]),
        want <= spaces[m].inactive_bytes(),
    ensures
        admission::reclaimable(spaces, except, names) >= want,
    decreases names.len(),
{
    let init = names.drop_last();
    lemma_reclaimable_is_positive(spaces, except, init);
    let ns = spaces[names.last()];
    let n = quota::clamped(ns.inactive_len() as int);
    let per = ns.block_bytes();
    assert(0 <= n * per) by (nonlinear_arith)
        requires
            0 <= n,
            per >= 1,
    ;
    if names.last() != m {
        let i = choose|i: int| 0 <= i < names.len() && names[i] == m;
        assert(init[i] == m);
        lemma_each_gives_back(spaces, except, init, m, want);
    }
}

/// A model that is within its soft limit is not refused for the shared pool where all its new
/// blocks fit into what is free, nor where some other model borrows as much as they take and
/// has as much in cold blocks.
pub proof fn free_room_is_lent(
    a: AuthorityView,
    k: (Seq<char>, Seq<char>),
    pk: i32,
    hashes: Seq<Seq<u8>>,
    m: (Seq<char>, Seq<char>),
)
    requires
        books_balance(a),
        a.spaces.dom().finite(),
        a.spaces.contains_key(k),
        a.spaces.contains_key(m),
        m != k,
        pk == PoolKind::Target.spec_number() || pk == PoolKind::Draft.spec_number(),
        (a.spaces[k].block_count() + hashes.len()) * a.spaces[k].block_bytes() <= i64::MAX,
        a.spaces[k].descriptor.quota is Some,
        a.spaces[k].descriptor.quota->0.hard_bytes >= 0,
        a.spaces[k].used <= a.spaces[k].descriptor.quota->0.soft_bytes,
        ({
            let need = admission::unknown_flats(a.spaces[k].pool(pk), hashes).len()
                * a.spaces[k].block_bytes();
            ||| admission::total_used(a.spaces, a.names()) + need <= a.capacity
            ||| borrows(a.spaces[m]) && a.spaces[m].used
                - a.spaces[m].descriptor.quota->0.soft_bytes >= need
                && a.spaces[m].inactive_bytes() >= need
        }),
    ensures
        ({
            let r = a.preflight(k, pk, hashes);
            r is Ok && (r->Ok_0 is RejectedHardQuota ==> r->Ok_0->RejectedHardQuota_0.reason
                == "HARD_QUOTA"@)
        }),
{
    let ns = a.spaces[k];
    let q = ns.descriptor.quota->0;
    let unknown = admission::unknown_flats(ns.pool(pk), hashes);
    let n = unknown.len();
    let per = ns.block_bytes();
    let cold = ns.inactive_len();
    if n > 0 {
        vstd::seq_lib::seq_to_set_is_finite(hashes);
        hashes.lemma_cardinality_of_set();
        vstd::set_lib::lemma_len_subset(unknown, hashes.to_set());
        lemma_inactive_few(ns);
        let count = ns.block_count();
        let more = hashes.len();
        assert((count + more) * per == count * per + more * per && 0 <= n * per <= more * per && n
            <= n * per && 0 <= count * per && 0 <= cold * per && cold <= cold * per)
            by (nonlinear_arith)
            requires
                n <= more,
                per >= 1,
        ;
        let delta = quota::clamped(quota::clamped(n as int) * per);
        assert(delta == n * per);
        let asked = ns.used + delta;
        let hard = admission::over(q.hard_bytes, asked);
        let soft = admission::over(q.soft_bytes, asked);
        let need = if hard >= soft {
            hard
        } else {
            soft
        };
        lemma_blocks_for(need, per);
        let b = admission::blocks_for(need, per);
        let own = if b <= cold {
            b
        } else {
            cold as int
        };
        assert(0 <= own * per <= cold * per) by (nonlinear_arith)
            requires
                0 <= own <= cold,
                per >= 1,
        ;
        assert(n * per > 0) by (nonlinear_arith)
            requires
                n > 0,
                per >= 1,
        ;
        let avail = admission::reclaimable(a.spaces, k, a.names());
        lemma_reclaimable_is_positive(a.spaces, k, a.names());
        listing::listing_lists::<NamespaceKey>(a.spaces.dom());
        assert(a.names().contains(m)) by {
            assert(a.names().to_set().contains(m));
        }
        if admission::total_used(a.spaces, a.names()) + n * per > a.capacity {
            lemma_each_gives_back(a.spaces, k, a.names(), m, n * per);
        }
        let left = ns.used - own * per;
        assert(quota::clamped(ns.used - quota::clamped(own * per)) == left);
        assert(quota::clamped(left + delta) == left + delta);
        assert(admission::over(q.soft_bytes, left + delta) <= delta);
        assert(a.free_bytes() >= 0);
        assert(a.plan(k, n)->Ok_0 == admission::ns_plan(k, ns, n, a.capacity, a.free_bytes(), avail));
    }
}

proof fn lemma_dropped_keeps(p: PoolView, victims: Seq<Node>, f: Seq<u8>, s: SequenceHash)
    ensures
        ({
            let q = p.dropped(victims).0;
            &&& q.by_flat.contains_key(f) ==> p.by_flat.contains_key(f) && q.by_flat[f]
                == p.by_flat[f]
            &&& q.seq_to_flat.contains_key(s) ==> p.seq_to_flat.contains_key(s)
                && q.seq_to_flat[s] == p.seq_to_flat[s]
        }),
    decreases victims.len(),
{
    if victims.len() > 0 {
        lemma_dropped_keeps(p, victims.drop_last(), f, s);
    }
}

/// What leaves to make room is what the inactive index gives up next, and nothing else: such
/// a block is gone, and any other is as it was.
pub proof fn eviction_takes_what_leaves_next(p: PoolView, n: nat, f: Seq<u8>)
    requires
        tidy(p),
        p.by_flat.contains_key(f),
    ensures
        ({
            let victims = p.inactive.allocated(n, p.freq).1;
            let q = p.evicted(n).0;
            let leaves = exists|i: int|
                0 <= i < victims.len() && (#[trigger] victims[i]).seq == p.by_flat[f].seq;
            &&& q.by_flat.contains_key(f) <==> !leaves
            &&& !leaves ==> q.by_flat[f] == p.by_flat[f]
        }),
{
    let (inactive, victims) = p.inactive.allocated(n, p.freq);
    let p0 = PoolView { inactive, ..p };
    inactive::allocation_is_complete(p.inactive, n, p.freq);
    lemma_allocated(p.inactive, n, p.freq);
    assert(paired(p0)) by {
        assert(paired(p));
    }
    assert forall|s: SequenceHash| #[trigger]
        inactive::holds(victims, s) implies p0.seq_to_flat.contains_key(s) && !p0.holds(s) by {
        assert(inactive::holds(p.inactive.nodes, s));
        assert(p0.accounts_of(s) == p.accounts_of(s));
    }
    lemma_dropped(p0, victims);
    let s = p.by_flat[f].seq;
    let q = p0.dropped(victims).0;
    lemma_dropped_keeps(p0, victims, f, s);
    assert(p0.by_flat.contains_key(f));
    assert(p0.seq_to_flat.contains_key(s));
    if q.by_flat.contains_key(f) {
        assert(q.seq_to_flat.contains_key(q.by_flat[f].seq));
    }
    if !inactive::holds(victims, s) {
        assert(q.seq_to_flat.contains_key(s));
        assert(q.by_flat.contains_key(q.seq_to_flat[s]));
    }
}

/// Taking blocks of a pool makes as much room as was asked for, or all that may leave; each
/// block that left is counted and charged no more.
pub proof fn taken_blocks_are_counted(
    a: AuthorityView,
    k: (Seq<char>, Seq<char>),
    pk: i32,
    n: nat,
)
    requires
        books_balance(a),
        pk == PoolKind::Target.spec_number() || pk == PoolKind::Draft.spec_number(),
        a.pool_at(k, pk) is Some,
    ensures
        ({
            let p = a.pool_at(k, pk)->0;
            let (b, m) = a.evicted_from(k, pk, n);
            &&& m == (if n <= p.inactive.nodes.len() {
                n
            } else {
                p.inactive.nodes.len()
            })
            &&& b.pool_at(k, pk) == Some(p.evicted(n).0)
            &&& b.pool_at(k, pk)->0.by_flat.len() + m == p.by_flat.len()
            &&& b.spaces[k].used == a.spaces[k].used - m * a.spaces[k].block_bytes()
        }),
{
    let ns = a.spaces[k];
    let p = a.pool_at(k, pk)->0;
    assert(a.spaces.contains_key(k));
    assert(balanced(ns));
    eviction_keeps_order(p, n);
    let m = p.evicted(n).1.len();
    let c = ns.block_count();
    let per = ns.block_bytes();
    assert(m <= p.by_flat.len() <= c);
    assert((c - m) * per == c * per - m * per && (c - m) * per >= 0) by (nonlinear_arith)
        requires
            m <= c,
            per >= 1,
    ;
}

} // verus!
