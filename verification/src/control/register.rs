//! Registering blocks that are durable: a batch is one contiguous part of a prefix
//! in one pool of one model. A batch that is not is refused before anything
//! changes.

use vstd::prelude::*;
use vstd::string::*;

use crate::base::keys;
use crate::base::keys::{dup_all, Dup, Key};
use crate::base::table::Table;
use crate::base::text;
use crate::base::text::{decimal_text, joined, ns_text, quoted_text, signed_text, text};
use crate::control::admission;
use crate::control::admission::{count_unknown, RegisterStatus, RegisterStatusView};
use crate::control::authority::{Authority, AuthorityView, OrphanEntry, OrphanView};
use crate::control::hash_chain;
use crate::control::hash_chain::{lineage_from_prefix, MAX_CHAIN};
use crate::control::namespace::{BlockKey, BlockKeyView, Namespace, NamespaceKey, NsView};
use crate::control::pool;
use crate::control::pool::{resolve_pool_kind, settle, Pool, PoolView};
use crate::control::quota;
use crate::control::quota::clamp;
use crate::control::view;
use crate::control::view::upsert_event;
use crate::proto::{
    BlockMeta, BlockMetaView, KvBlockId, KvBlockIdView, ViewEvent, ViewEventView, ViewKind,
};

verus! {

/// The addresses of the records that have one.
pub open spec fn ids_of(metas: Seq<BlockMetaView>) -> Seq<KvBlockIdView>
    decreases metas.len(),
{
    if metas.len() == 0 {
        Seq::empty()
    } else {
        match metas.last().id {
            Some(id) => ids_of(metas.drop_last()).push(id),
            None => ids_of(metas.drop_last()),
        }
    }
}

/// The flat hashes of addresses.
pub open spec fn hashes_of(ids: Seq<KvBlockIdView>) -> Seq<Seq<u8>> {
    ids.map_values(|id: KvBlockIdView| id.block_hash)
}

/// Where a hash occurs last in a prefix; before its start where it does not.
pub open spec fn last_index(prefix: Seq<Seq<u8>>, h: Seq<u8>) -> int
    decreases prefix.len(),
{
    if prefix.len() == 0 {
        -1
    } else if prefix.last() == h {
        prefix.len() - 1
    } else {
        last_index(prefix.drop_last(), h)
    }
}

/// What is wrong with an address in a batch that starts with `first`.
pub open spec fn id_fault(
    id: KvBlockIdView,
    first: KvBlockIdView,
    pool_kind: i32,
    prefix: Seq<Seq<u8>>,
) -> Option<Seq<char>> {
    if id.model_id != first.model_id {
        Some(
            "RegisterBlocks: mixed model_id "@ + first.model_id + " vs "@ + id.model_id,
        )
    } else if id.revision != first.revision {
        Some(
            "RegisterBlocks: mixed revision "@ + text::quoted(first.revision) + " vs "@ + text::quoted(
                id.revision,
            ),
        )
    } else {
        match pool::pool_kind_of(id.pool_kind) {
            Err(e) => Some(e),
            Ok(pk) => if pk != pool_kind {
                Some(
                    "RegisterBlocks: mixed pool_kind "@ + text::signed(pk as int) + " vs "@ + text::signed(
                        pool_kind as int,
                    ),
                )
            } else if last_index(prefix, id.block_hash) < 0 {
                Some(
                    "RegisterBlocks: block hash not in prefix_hashes (len="@ + text::decimal(
                        id.block_hash.len(),
                    ) + ")"@,
                )
            } else {
                None
            },
        }
    }
}

/// The first fault of a batch.
pub open spec fn ids_fault(
    ids: Seq<KvBlockIdView>,
    first: KvBlockIdView,
    pool_kind: i32,
    prefix: Seq<Seq<u8>>,
) -> Option<Seq<char>>
    decreases ids.len(),
{
    if ids.len() == 0 {
        None
    } else {
        match ids_fault(ids.drop_last(), first, pool_kind, prefix) {
            Some(e) => Some(e),
            None => id_fault(ids.last(), first, pool_kind, prefix),
        }
    }
}

/// Some block of the batch is at a place of the prefix.
pub open spec fn takes(ids: Seq<KvBlockIdView>, prefix: Seq<Seq<u8>>, at: int) -> bool {
    exists|i: int|
        0 <= i < ids.len() && last_index(prefix, (#[trigger] ids[i]).block_hash) == at
}

/// The batch leaves no place out between two that it takes.
pub open spec fn contiguous(ids: Seq<KvBlockIdView>, prefix: Seq<Seq<u8>>) -> bool {
    forall|a: int, b: int, c: int|
        a <= c <= b && #[trigger] takes(ids, prefix, a) && #[trigger] takes(ids, prefix, b)
            ==> #[trigger] takes(ids, prefix, c)
}

/// The namespace and pool of a batch, or what is wrong with it.
pub open spec fn batch_verdict(ids: Seq<KvBlockIdView>, prefix: Seq<Seq<u8>>) -> Result<
    ((Seq<char>, Seq<char>), i32),
    Seq<char>,
> {
    if ids.len() == 0 {
        Err("RegisterBlocks: no KVBlockID"@)
    } else {
        let first = ids[0];
        match pool::pool_kind_of(first.pool_kind) {
            Err(e) => Err(e),
            Ok(pk) => if prefix.len() == 0 {
                Err("RegisterBlocks: prefix_hashes required (P4.2 lineage)"@)
            } else {
                match ids_fault(ids, first, pk, prefix) {
                    Some(e) => Err(e),
                    None => if !contiguous(ids, prefix) {
                        Err(
                            "RegisterBlocks: blocks must be a contiguous segment of prefix_hashes"@,
                        )
                    } else {
                        Ok(((first.model_id, first.revision), pk))
                    },
                }
            },
        }
    }
}

/// Some record has an address but no durable copy.
pub open spec fn not_durable(metas: Seq<BlockMetaView>) -> bool {
    exists|i: int|
        0 <= i < metas.len() && (#[trigger] metas[i]).id is Some && metas[i].locations.len() == 0
            && !metas[i].l3_present
}

/// The event of a stored record.
pub open spec fn stored_event(meta: BlockMetaView, is_new: bool) -> ViewEventView {
    view::upserted(
        if is_new {
            ViewKind::Registered
        } else {
            ViewKind::Moved
        },
        meta.id->0,
        meta.locations,
        meta.l3_present,
        meta.block_kind,
    )
}

/// A pool after records were stored in it, with the events, and how many were new.
pub open spec fn stored_all(
    p: PoolView,
    node_id: Seq<char>,
    pool_kind: i32,
    prefix: Seq<Seq<u8>>,
    metas: Seq<BlockMetaView>,
) -> (PoolView, Seq<ViewEventView>, nat)
    decreases metas.len(),
{
    if metas.len() == 0 {
        (p, Seq::empty(), 0)
    } else {
        let (q, events, fresh) = stored_all(p, node_id, pool_kind, prefix, metas.drop_last());
        match metas.last().id {
            None => (q, events, fresh),
            Some(id) => {
                let flat = id.block_hash;
                let at = last_index(prefix, flat);
                let meta = pool::settled(metas.last(), pool_kind, node_id);
                let is_new = !q.by_flat.contains_key(flat);
                (
                    q.stored(flat, hash_chain::lineage(prefix)[at], meta, prefix.take(at + 1)),
                    events.push(stored_event(meta, is_new)),
                    if is_new {
                        fresh + 1
                    } else {
                        fresh
                    },
                )
            },
        }
    }
}

/// Orphans without those of a batch.
pub open spec fn orphans_without(
    orphans: Map<BlockKeyView, OrphanView>,
    k: (Seq<char>, Seq<char>),
    pool_kind: i32,
    hashes: Seq<Seq<u8>>,
) -> Map<BlockKeyView, OrphanView>
    decreases hashes.len(),
{
    if hashes.len() == 0 {
        orphans
    } else {
        orphans_without(orphans, k, pool_kind, hashes.drop_last()).remove(
            BlockKeyView { model_id: k.0, revision: k.1, pool_kind, flat: hashes.last() },
        )
    }
}

impl NsView {
    /// The charge with `n` more blocks, as far as numbers reach.
    pub open spec fn charged(self, n: nat) -> NsView {
        NsView { used: quota::clamped(self.used + n * self.block_bytes()) as i64, ..self }
    }
}

impl AuthorityView {
    /// A batch that was let in is stored.
    pub open spec fn batch_stored(
        self,
        k: (Seq<char>, Seq<char>),
        pool_kind: i32,
        node_id: Seq<char>,
        prefix: Seq<Seq<u8>>,
        metas: Seq<BlockMetaView>,
    ) -> AuthorityView {
        let (p, events, fresh) = stored_all(
            self.spaces[k].pool_or_new(pool_kind),
            node_id,
            pool_kind,
            prefix,
            metas,
        );
        let a = self.with_ns(k, self.spaces[k].with_pool(pool_kind, p).charged(fresh)).with_events(
            events,
        );
        AuthorityView {
            orphans: orphans_without(a.orphans, k, pool_kind, hashes_of(ids_of(metas))),
            ..a
        }
    }

    /// A batch of blocks is registered.
    pub open spec fn registered(
        self,
        node_id: Seq<char>,
        prefix: Seq<Seq<u8>>,
        metas: Seq<BlockMetaView>,
    ) -> (AuthorityView, Result<RegisterStatusView, Seq<char>>) {
        if metas.len() == 0 {
            (self, Ok(RegisterStatusView::Accepted))
        } else {
            match batch_verdict(ids_of(metas), prefix) {
                Err(e) => (self, Err(e)),
                Ok((k, pk)) => if !self.spaces.contains_key(k) {
                    (
                        self,
                        Err(
                            "RegisterBlocks: model not registered "@ + text::ns_named(k.0, k.1)
                                + "; call RegisterModel first"@,
                        ),
                    )
                } else {
                    let fresh = admission::unknown_flats(
                        self.spaces[k].pool(pk),
                        hashes_of(ids_of(metas)),
                    ).len();
                    let plan = self.plan(k, fresh)->Ok_0;
                    let a = self.admitted(k, plan);
                    match plan.status() {
                        RegisterStatusView::RejectedHardQuota(s) => (
                            a,
                            Ok(RegisterStatusView::RejectedHardQuota(s)),
                        ),
                        RegisterStatusView::Accepted => if not_durable(metas) {
                            (
                                a,
                                Err(
                                    "RegisterBlocks: need L2 location or l3_present (durable first)"@,
                                ),
                            )
                        } else {
                            (
                                a.batch_stored(k, pk, node_id, prefix, metas),
                                Ok(RegisterStatusView::Accepted),
                            )
                        },
                    }
                },
            }
        }
    }
}

/// Collects the addresses of the records that have one.
pub(crate) fn collect_ids(metas: &Vec<BlockMeta>) -> (ids: Vec<KvBlockId>)
    ensures
        keys::views(ids@) == ids_of(keys::views(metas@)),
{
    let ghost all = keys::views(metas@);
    let mut ids: Vec<KvBlockId> = Vec::new();
    let mut i: usize = 0;
    assert(all.take(0) =~= Seq::empty());
    assert(keys::views(ids@) =~= Seq::empty());
    while i < metas.len()
        invariant
            i <= metas@.len(),
            all == keys::views(metas@),
            keys::views(ids@) == ids_of(all.take(i as int)),
        decreases metas@.len() - i,
    {
        let ghost before = keys::views(ids@);
        proof {
            assert(all.take(i + 1).drop_last() =~= all.take(i as int));
            assert(all[i as int] == metas@[i as int]@);
        }
        if let Some(id) = &metas[i].id {
            ids.push(id.dup());
            assert(keys::views(ids@) =~= before.push(id@));
        }
        i += 1;
    }
    assert(all.take(i as int) =~= all);
    ids
}

/// Collects the flat hashes of addresses.
pub(crate) fn collect_hashes(ids: &Vec<KvBlockId>) -> (hashes: Vec<Vec<u8>>)
    ensures
        keys::views(hashes@) == hashes_of(keys::views(ids@)),
{
    let mut hashes: Vec<Vec<u8>> = Vec::with_capacity(ids.len());
    let mut i: usize = 0;
    while i < ids.len()
        invariant
            i <= ids@.len(),
            hashes@.len() == i,
            forall|j: int|
                0 <= j < i ==> (#[trigger] hashes@[j])@ == hashes_of(keys::views(ids@))[j],
        decreases ids@.len() - i,
    {
        hashes.push(ids[i].block_hash.dup());
        i += 1;
    }
    assert(keys::views(hashes@) =~= hashes_of(keys::views(ids@)));
    hashes
}

/// Where a hash that occurs is last.
pub proof fn lemma_last_index(prefix: Seq<Seq<u8>>, h: Seq<u8>)
    ensures
        -1 <= last_index(prefix, h) < prefix.len(),
        last_index(prefix, h) >= 0 ==> prefix[last_index(prefix, h)] == h,
        last_index(prefix, h) < 0 ==> !prefix.contains(h),
    decreases prefix.len(),
{
    if prefix.len() > 0 && prefix.last() != h {
        let init = prefix.drop_last();
        lemma_last_index(init, h);
        if prefix.contains(h) {
            let i = choose|i: int| 0 <= i < prefix.len() && prefix[i] == h;
            assert(init[i] == h);
        }
    }
}

/// Finds where a hash is last in a prefix.
fn find_last(prefix: &[Vec<u8>], h: &Vec<u8>) -> (at: Option<usize>)
    ensures
        match at {
            Some(i) => i < prefix@.len() && i == last_index(keys::views(prefix@), h@),
            None => last_index(keys::views(prefix@), h@) < 0,
        },
{
    let ghost all = keys::views(prefix@);
    let mut i: usize = prefix.len();
    assert(all.take(i as int) =~= all);
    while i > 0
        invariant
            i <= prefix@.len(),
            all == keys::views(prefix@),
            last_index(all, h@) == last_index(all.take(i as int), h@),
        decreases i,
    {
        assert(all.take(i as int).drop_last() =~= all.take(i - 1));
        assert(all[i - 1] == prefix@[i - 1]@);
        if prefix[i - 1].same(h) {
            return Some(i - 1);
        }
        i -= 1;
    }
    None
}

fn mixed_text(what: &str, a: &str, b: &str) -> (r: String)
    ensures
        r@ == what@ + a@ + " vs "@ + b@,
{
    let mut r = joined(what, a);
    r.append(" vs ");
    r.append(b);
    r
}

/// Checks an address against the first of its batch; returns its place.
fn check_id(id: &KvBlockId, first: &KvBlockId, pool_kind: i32, prefix: &[Vec<u8>]) -> (r: Result<
    usize,
    String,
>)
    ensures
        match r {
            Ok(at) => id_fault(id@, first@, pool_kind, keys::views(prefix@)) is None && at == last_index(
                keys::views(prefix@),
                id@.block_hash,
            ) && at < prefix@.len(),
            Err(e) => id_fault(id@, first@, pool_kind, keys::views(prefix@)) == Some(e@),
        },
{
    if !id.model_id.same(&first.model_id) {
        return Err(
            mixed_text(
                "RegisterBlocks: mixed model_id ",
                first.model_id.as_str(),
                id.model_id.as_str(),
            ),
        );
    }
    if !id.revision.same(&first.revision) {
        return Err(
            mixed_text(
                "RegisterBlocks: mixed revision ",
                quoted_text(first.revision.as_str()).as_str(),
                quoted_text(id.revision.as_str()).as_str(),
            ),
        );
    }
    let pk: i32 = match resolve_pool_kind(id.pool_kind) {
        Ok(pk) => pk,
        Err(e) => return Err(e),
    };
    if pk != pool_kind {
        return Err(
            mixed_text(
                "RegisterBlocks: mixed pool_kind ",
                signed_text(pk as i64).as_str(),
                signed_text(pool_kind as i64).as_str(),
            ),
        );
    }
    match find_last(prefix, &id.block_hash) {
        Some(at) => Ok(at),
        None => {
            let mut e = joined(
                "RegisterBlocks: block hash not in prefix_hashes (len=",
                decimal_text(id.block_hash.len() as u64).as_str(),
            );
            e.append(")");
            Err(e)
        },
    }
}

/// The places are those of the batch.
spec fn places(ids: Seq<KvBlockIdView>, prefix: Seq<Seq<u8>>, positions: Seq<usize>) -> bool {
    &&& positions.len() == ids.len()
    &&& forall|i: int|
        0 <= i < ids.len() ==> (#[trigger] positions[i]) == last_index(prefix, ids[i].block_hash)
}

fn contains_place(positions: &Vec<usize>, at: usize) -> (b: bool)
    ensures
        b == positions@.contains(at),
{
    let mut i: usize = 0;
    while i < positions.len()
        invariant
            i <= positions@.len(),
            forall|j: int| 0 <= j < i ==> positions@[j] != at,
        decreases positions@.len() - i,
    {
        if positions[i] == at {
            return true;
        }
        i += 1;
    }
    false
}

/// Tells whether no place between two of the batch is left out.
fn check_contiguous(
    positions: &Vec<usize>,
    Ghost(ids): Ghost<Seq<KvBlockIdView>>,
    Ghost(prefix): Ghost<Seq<Seq<u8>>>,
) -> (b: bool)
    requires
        positions@.len() > 0,
        places(ids, prefix, positions@),
    ensures
        b == contiguous(ids, prefix),
{
    assert forall|c: int| #[trigger]
        takes(ids, prefix, c) == exists|i: int|
            0 <= i < positions@.len() && #[trigger] positions@[i] == c by {
        if takes(ids, prefix, c) {
            let i = choose|i: int|
                0 <= i < ids.len() && last_index(prefix, (#[trigger] ids[i]).block_hash) == c;
            assert(positions@[i] == c);
        }
        if exists|i: int| 0 <= i < positions@.len() && #[trigger] positions@[i] == c {
            let i = choose|i: int| 0 <= i < positions@.len() && #[trigger] positions@[i] == c;
            assert(last_index(prefix, ids[i].block_hash) == c);
        }
    }
    let mut lo: usize = positions[0];
    let mut hi: usize = positions[0];
    let mut i: usize = 1;
    while i < positions.len()
        invariant
            1 <= i <= positions@.len(),
            positions@.contains(lo),
            positions@.contains(hi),
            lo <= hi,
            forall|j: int| 0 <= j < i ==> lo <= #[trigger] positions@[j] <= hi,
        decreases positions@.len() - i,
    {
        let p: usize = positions[i];
        assert(positions@.contains(p));
        if p < lo {
            lo = p;
        }
        if p > hi {
            hi = p;
        }
        i += 1;
    }
    assert(takes(ids, prefix, lo as int) && takes(ids, prefix, hi as int));
    let mut c: usize = lo;
    while c < hi
        invariant
            lo <= c <= hi,
            forall|d: int| lo <= d < c ==> takes(ids, prefix, d),
            forall|c: int| #[trigger]
                takes(ids, prefix, c) == exists|i: int|
                    0 <= i < positions@.len() && #[trigger] positions@[i] == c,
            takes(ids, prefix, lo as int),
            takes(ids, prefix, hi as int),
        decreases hi - c,
    {
        if !contains_place(positions, c) {
            assert(!takes(ids, prefix, c as int));
            return false;
        }
        assert(takes(ids, prefix, c as int));
        c += 1;
    }
    assert forall|x: int, y: int, z: int|
        x <= z <= y && #[trigger] takes(ids, prefix, x) && #[trigger] takes(
            ids,
            prefix,
            y,
        ) implies #[trigger] takes(ids, prefix, z) by {
        assert(lo <= x && y <= hi);
    }
    true
}

/// Checks a batch; returns its namespace and pool.
fn check_batch(ids: &Vec<KvBlockId>, prefix: &[Vec<u8>]) -> (r: Result<(NamespaceKey, i32), String>)
    ensures
        match r {
            Ok((k, pk)) => batch_verdict(keys::views(ids@), keys::views(prefix@)) == Ok::<
                ((Seq<char>, Seq<char>), i32),
                Seq<char>,
            >((k@, pk)) && forall|i: int|
                0 <= i < ids@.len() ==> last_index(
                    keys::views(prefix@),
                    (#[trigger] keys::views(ids@)[i]).block_hash,
                ) >= 0,
            Err(e) => batch_verdict(keys::views(ids@), keys::views(prefix@)) == Err::<
                ((Seq<char>, Seq<char>), i32),
                Seq<char>,
            >(e@),
        },
{
    if ids.len() == 0 {
        return Err(text("RegisterBlocks: no KVBlockID"));
    }
    let first = &ids[0];
    let ghost all = keys::views(ids@);
    let ghost pre = keys::views(prefix@);
    assert(all[0] == first@);
    let pk: i32 = match resolve_pool_kind(first.pool_kind) {
        Ok(pk) => pk,
        Err(e) => return Err(e),
    };
    if prefix.len() == 0 {
        return Err(text("RegisterBlocks: prefix_hashes required (P4.2 lineage)"));
    }
    let mut positions: Vec<usize> = Vec::new();
    let mut i: usize = 0;
    while i < ids.len()
        invariant
            i <= ids@.len() == all.len(),
            all == keys::views(ids@),
            pre == keys::views(prefix@),
            first@ == all[0],
            all.len() > 0,
            pre.len() > 0,
            pool::pool_kind_of(first@.pool_kind) == Ok::<i32, Seq<char>>(pk),
            ids_fault(all.take(i as int), first@, pk, pre) is None,
            places(all.take(i as int), pre, positions@),
            forall|j: int|
                0 <= j < i ==> last_index(pre, (#[trigger] all[j]).block_hash) >= 0,
        decreases ids@.len() - i,
    {
        assert(all.take(i + 1).drop_last() =~= all.take(i as int));
        assert(all[i as int] == ids@[i as int]@);
        match check_id(&ids[i], first, pk, prefix) {
            Ok(at) => {
                let ghost before = positions@;
                positions.push(at);
                assert(places(all.take(i + 1), pre, positions@)) by {
                    assert forall|j: int| 0 <= j < i + 1 implies (#[trigger] positions@[j])
                        == last_index(pre, all.take(i + 1)[j].block_hash) by {
                        if j < i {
                            assert(positions@[j] == before[j]);
                            assert(all.take(i as int)[j] == all.take(i + 1)[j]);
                        }
                    }
                }
            },
            Err(e) => {
                proof {
                    lemma_fault_grows(all, first@, pk, pre, i + 1);
                }
                return Err(e);
            },
        }
        i += 1;
    }
    assert(all.take(i as int) =~= all);
    if !check_contiguous(&positions, Ghost(all), Ghost(pre)) {
        return Err(
            text("RegisterBlocks: blocks must be a contiguous segment of prefix_hashes"),
        );
    }
    Ok((NamespaceKey::from_id(first), pk))
}

proof fn lemma_fault_grows(
    ids: Seq<KvBlockIdView>,
    first: KvBlockIdView,
    pool_kind: i32,
    prefix: Seq<Seq<u8>>,
    n: int,
)
    requires
        0 <= n <= ids.len(),
        ids_fault(ids.take(n), first, pool_kind, prefix) is Some,
    ensures
        ids_fault(ids, first, pool_kind, prefix) == ids_fault(
            ids.take(n),
            first,
            pool_kind,
            prefix,
        ),
    decreases ids.len(),
{
    if n == ids.len() {
        assert(ids.take(n) =~= ids);
    } else {
        assert(ids.drop_last().take(n) =~= ids.take(n));
        lemma_fault_grows(ids.drop_last(), first, pool_kind, prefix, n);
    }
}

/// Tells whether some record has an address but no durable copy.
fn lacks_durable(metas: &Vec<BlockMeta>) -> (b: bool)
    ensures
        b == not_durable(keys::views(metas@)),
{
    let ghost all = keys::views(metas@);
    let mut i: usize = 0;
    while i < metas.len()
        invariant
            i <= metas@.len() == all.len(),
            all == keys::views(metas@),
            forall|j: int|
                0 <= j < i ==> !((#[trigger] all[j]).id is Some && all[j].locations.len() == 0
                    && !all[j].l3_present),
        decreases metas@.len() - i,
    {
        let m = &metas[i];
        assert(all[i as int] == m@);
        if m.id.is_some() && m.locations.len() == 0 && !m.l3_present {
            return true;
        }
        i += 1;
    }
    false
}

/// Stores records in a pool; returns the events and how many were new.
fn store_all(
    pool: &mut Pool,
    node_id: &str,
    pool_kind: i32,
    prefix: &[Vec<u8>],
    metas: &Vec<BlockMeta>,
) -> (r: (Vec<ViewEvent>, u64))
    requires
        old(pool)@.wf(),
        prefix@.len() <= MAX_CHAIN,
        forall|i: int|
            0 <= i < ids_of(keys::views(metas@)).len() ==> last_index(
                keys::views(prefix@),
                (#[trigger] ids_of(keys::views(metas@))[i]).block_hash,
            ) >= 0,
    ensures
        ({
            let (p, events, fresh) = stored_all(
                old(pool)@,
                node_id@,
                pool_kind,
                keys::views(prefix@),
                keys::views(metas@),
            );
            &&& final(pool)@ == p
            &&& keys::views(r.0@) == events
            &&& r.1 == fresh
        }),
        final(pool)@.wf(),
{
    let seqs = lineage_from_prefix(prefix);
    let ghost pre = keys::views(prefix@);
    let ghost all = keys::views(metas@);
    let ghost start = pool@;
    let mut events: Vec<ViewEvent> = Vec::new();
    let mut fresh: u64 = 0;
    let mut i: usize = 0;
    assert(all.take(0) =~= Seq::empty());
    assert(keys::views(events@) =~= Seq::empty());
    while i < metas.len()
        invariant
            i <= metas@.len() == all.len(),
            all == keys::views(metas@),
            pre == keys::views(prefix@),
            prefix@.len() <= MAX_CHAIN,
            seqs@ == hash_chain::lineage(pre),
            seqs@.len() == pre.len(),
            pool@.wf(),
            fresh <= i,
            forall|i: int|
                0 <= i < ids_of(all).len() ==> last_index(
                    pre,
                    (#[trigger] ids_of(all)[i]).block_hash,
                ) >= 0,
            ({
                let (p, evs, n) = stored_all(
                    start,
                    node_id@,
                    pool_kind,
                    pre,
                    all.take(i as int),
                );
                &&& pool@ == p
                &&& keys::views(events@) == evs
                &&& fresh == n
            }),
        decreases metas@.len() - i,
    {
        let m = &metas[i];
        proof {
            assert(all.take(i + 1).drop_last() =~= all.take(i as int));
            assert(all[i as int] == m@);
        }
        if let Some(id) = &m.id {
            proof {
                lemma_ids_prefix(all, i as int);
                lemma_last_index(pre, id@.block_hash);
            }
            if let Some(at) = find_last(prefix, &id.block_hash) {
                let meta = settle(m, pool_kind, node_id);
                let is_new = !pool.by_flat.contains_key(&id.block_hash);
                let ghost before = keys::views(events@);
                let event = upsert_event(
                    if is_new {
                        ViewKind::Registered
                    } else {
                        ViewKind::Moved
                    },
                    match &meta.id {
                        Some(id) => id.dup(),
                        None => id.dup(),
                    },
                    dup_all(&meta.locations),
                    meta.l3_present,
                    meta.block_kind,
                );
                let ghost v = event@;
                assert(v == stored_event(meta@, is_new));
                events.push(event);
                assert(keys::views(events@) =~= before.push(v));
                let chain = take_prefix(prefix, at + 1);
                pool.store(&id.block_hash, seqs[at], meta, chain);
                if is_new {
                    fresh += 1;
                }
            }
        }
        i += 1;
    }
    assert(all.take(i as int) =~= all);
    (events, fresh)
}

proof fn lemma_ids_prefix(metas: Seq<BlockMetaView>, i: int)
    requires
        0 <= i < metas.len(),
        metas[i].id is Some,
    ensures
        ids_of(metas).contains(metas[i].id->0),
    decreases metas.len(),
{
    let init = metas.drop_last();
    let ids = ids_of(metas);
    if i == metas.len() - 1 {
        assert(ids[ids.len() - 1] == metas[i].id->0);
    } else {
        assert(init[i] == metas[i]);
        lemma_ids_prefix(init, i);
        let j = choose|j: int| 0 <= j < ids_of(init).len() && ids_of(init)[j] == metas[i].id->0;
        assert(ids[j] == metas[i].id->0);
    }
}

/// The first hashes of a prefix.
fn take_prefix(prefix: &[Vec<u8>], n: usize) -> (r: Vec<Vec<u8>>)
    requires
        n <= prefix@.len(),
    ensures
        keys::views(r@) == keys::views(prefix@).take(n as int),
{
    let mut r: Vec<Vec<u8>> = Vec::with_capacity(n);
    let mut i: usize = 0;
    while i < n
        invariant
            i <= n <= prefix@.len(),
            r@.len() == i,
            forall|j: int| 0 <= j < i ==> (#[trigger] r@[j])@ == prefix@[j]@,
        decreases n - i,
    {
        r.push(prefix[i].dup());
        i += 1;
    }
    assert(keys::views(r@) =~= keys::views(prefix@).take(n as int));
    r
}

/// Drops the orphan marks of a batch.
fn clear_orphans(
    orphans: &mut Table<BlockKey, OrphanEntry>,
    key: &NamespaceKey,
    pool_kind: i32,
    hashes: &Vec<Vec<u8>>,
)
    ensures
        final(orphans)@ == orphans_without(old(orphans)@, key@, pool_kind, keys::views(hashes@)),
{
    let ghost all = keys::views(hashes@);
    let ghost start = orphans@;
    let mut i: usize = 0;
    assert(all.take(0) =~= Seq::empty());
    while i < hashes.len()
        invariant
            i <= hashes@.len(),
            all == keys::views(hashes@),
            orphans@ == orphans_without(start, key@, pool_kind, all.take(i as int)),
        decreases hashes@.len() - i,
    {
        assert(all.take(i + 1).drop_last() =~= all.take(i as int));
        orphans.remove(
            &BlockKey {
                model_id: key.model_id.dup(),
                revision: key.revision.dup(),
                pool_kind,
                flat: hashes[i].dup(),
            },
        );
        i += 1;
    }
    assert(all.take(i as int) =~= all);
}

impl Namespace {
    /// Charges `n` more blocks.
    pub fn charge(&mut self, n: u64)
        requires
            old(self)@.wf(),
        ensures
            final(self)@ == old(self)@.charged(n as nat),
            final(self)@.wf(),
    {
        let b: i64 = self.bytes_per_block();
        assert(0 <= n * b <= 170141183460469231704017187605319778305) by (nonlinear_arith)
            requires
                0 <= n <= 18446744073709551615,
                1 <= b <= 9223372036854775807,
        ;
        self.used_bytes = clamp(self.used_bytes as i128 + n as i128 * b as i128);
    }
}

impl Authority {
    /// Stores a batch that was let in.
    fn store_batch(
        &mut self,
        key: &NamespaceKey,
        pool_kind: i32,
        node_id: &str,
        prefix: &[Vec<u8>],
        metas: &Vec<BlockMeta>,
        hashes: &Vec<Vec<u8>>,
    )
        requires
            old(self).wf(),
            old(self)@.spaces.contains_key(key@),
            prefix@.len() <= MAX_CHAIN,
            keys::views(hashes@) == hashes_of(ids_of(keys::views(metas@))),
            forall|i: int|
                0 <= i < ids_of(keys::views(metas@)).len() ==> last_index(
                    keys::views(prefix@),
                    (#[trigger] ids_of(keys::views(metas@))[i]).block_hash,
                ) >= 0,
        ensures
            final(self)@ == old(self)@.batch_stored(
                key@,
                pool_kind,
                node_id@,
                keys::views(prefix@),
                keys::views(metas@),
            ),
            final(self).wf(),
    {
        if let Some(mut ns) = self.namespaces.remove(key) {
            let ghost was = ns@;
            assert(was.wf());
            let mut pool = match ns.take_pool(pool_kind) {
                Some(p) => p,
                None => Pool::new(ns.inactive_cap),
            };
            assert(pool@ == was.pool_or_new(pool_kind));
            let (events, fresh) = store_all(&mut pool, node_id, pool_kind, prefix, metas);
            ns.put_pool(pool_kind, pool);
            ns.charge(fresh);
            let ghost now = ns@;
            self.namespaces.insert(key.dup(), ns);
            assert(self@ =~= old(self)@.with_ns(key@, now));
            self.note(events);
            clear_orphans(&mut self.orphans, key, pool_kind, hashes);
        }
    }

    /// Registers a batch of durable blocks. Blocks that are new are charged; where
    /// that is too much, room is made, or the batch is refused.
    pub fn register(&mut self, node_id: &str, prefix_hashes: &[Vec<u8>], metas: Vec<BlockMeta>) -> (r:
        Result<RegisterStatus, String>)
        requires
            old(self).wf(),
            prefix_hashes@.len() <= MAX_CHAIN,
        ensures
            final(self)@ == old(self)@.registered(
                node_id@,
                keys::views(prefix_hashes@),
                keys::views(metas@),
            ).0,
            keys::seen(r) == old(self)@.registered(node_id@, keys::views(prefix_hashes@), keys::views(metas@)).1,
            final(self).wf(),
    {
        if metas.len() == 0 {
            return Ok(RegisterStatus::Accepted);
        }
        let ids = collect_ids(&metas);
        let (key, pk) = match check_batch(&ids, prefix_hashes) {
            Ok(x) => x,
            Err(e) => return Err(e),
        };
        let hashes = collect_hashes(&ids);
        let fresh: usize = match self.namespaces.get(&key) {
            None => {
                let mut e = joined(
                    "RegisterBlocks: model not registered ",
                    ns_text(key.model_id.as_str(), key.revision.as_str()).as_str(),
                );
                e.append("; call RegisterModel first");
                return Err(e);
            },
            Some(ns) => count_unknown(ns.pool(pk), &hashes),
        };
        match self.admit_register_bytes(key.model_id.as_str(), key.revision.as_str(), fresh) {
            Err(e) => return Err(e),
            Ok(RegisterStatus::RejectedHardQuota(s)) => {
                return Ok(RegisterStatus::RejectedHardQuota(s));
            },
            Ok(RegisterStatus::Accepted) => {},
        }
        if lacks_durable(&metas) {
            return Err(text("RegisterBlocks: need L2 location or l3_present (durable first)"));
        }
        assert(self@.spaces.contains_key(key@)) by {
            assert(self@.spaces.dom().contains(key@));
        }
        self.store_batch(&key, pk, node_id, prefix_hashes, &metas, &hashes);
        Ok(RegisterStatus::Accepted)
    }
}

} // verus!
