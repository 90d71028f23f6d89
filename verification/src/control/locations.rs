//! Reading the view and moving blocks in it: prefix lookup, where blocks are, and
//! what is published of them.

use vstd::prelude::*;
use vstd::string::*;

use crate::base::keys;
use crate::base::keys::{dup_all, dup_opt, to_bytes, Dup, Key};
use crate::base::text;
use crate::base::text::{joined, ns_text, signed_text, text};
use crate::control::authority;
use crate::control::authority::{Authority, AuthorityView};
use crate::control::hash_chain;
use crate::control::hash_chain::{lineage_from_prefix, SequenceHash, MAX_CHAIN};
use crate::control::inactive;
use crate::control::inactive::FrequencyView;
use crate::control::namespace;
use crate::control::namespace::{invalidated_events_for, NamespaceKey};
use crate::control::pool;
use crate::control::pool::{id_or_public, resolve_pool_kind, Entry, Mark, Pool, PoolView};
use crate::control::tier;
use crate::control::tier::{has_block, has_tier_on, TierL0};
use crate::control::view::upsert_event;
use crate::proto::{
    BlockMeta, BlockMetaView, KvBlockId, KvBlockIdView, Location, LocationView, ReusableBlock,
    ReusableBlockView, Tier, ViewKind,
};

verus! {

/// The pool has the `i`-th block of a prefix, with the lineage that the prefix
/// gives it.
pub open spec fn matched(p: PoolView, prefix: Seq<Seq<u8>>, i: int) -> bool {
    p.by_flat.contains_key(prefix[i]) && p.by_flat[prefix[i]].seq == hash_chain::lineage(prefix)[i]
}

/// How many blocks from the `i`-th on the pool has without a gap.
pub open spec fn run_from(p: PoolView, prefix: Seq<Seq<u8>>, i: int) -> nat
    decreases prefix.len() - i,
{
    if 0 <= i < prefix.len() && matched(p, prefix, i) {
        1 + run_from(p, prefix, i + 1)
    } else {
        0
    }
}

/// A block as a lookup returns it.
pub open spec fn reusable(meta: BlockMetaView, requester: Seq<char>) -> ReusableBlockView {
    ReusableBlockView {
        id: meta.id,
        meta: Some(meta),
        local_hit: tier::on_tier_of(meta.locations, Tier::L0, requester),
    }
}

/// The blocks that a lookup returns, how many, and whether the whole prefix is
/// local.
pub open spec fn found(p: PoolView, prefix: Seq<Seq<u8>>, requester: Seq<char>) -> (
    Seq<ReusableBlockView>,
    nat,
    bool,
) {
    let n = run_from(p, prefix, 0);
    let blocks = Seq::new(n, |i: int| reusable(p.by_flat[prefix[i]].meta, requester));
    (
        blocks,
        n,
        n > 0 && n == prefix.len() && forall|i: int|
            0 <= i < n ==> (#[trigger] blocks[i]).local_hit,
    )
}

/// Counts after each of some blocks was asked for once more.
pub open spec fn touched_all(counts: FrequencyView, seqs: Seq<SequenceHash>) -> FrequencyView
    decreases seqs.len(),
{
    if seqs.len() == 0 {
        counts
    } else {
        inactive::touched(touched_all(counts, seqs.drop_last()), seqs.last())
    }
}

/// The first location in a tier of a node, from the `i`-th on; the number of
/// locations where there is none.
pub open spec fn first_on(locations: Seq<LocationView>, tier: i32, node_id: Seq<char>, i: int) -> int
    decreases locations.len() - i,
{
    if i < 0 || i >= locations.len() {
        locations.len() as int
    } else if locations[i].tier == tier && locations[i].node_id == node_id {
        i
    } else {
        first_on(locations, tier, node_id, i + 1)
    }
}

/// Locations with one set: in place of the first in the same tier of the same
/// node, or behind all.
pub open spec fn placed_at(locations: Seq<LocationView>, l: LocationView) -> Seq<LocationView> {
    let i = first_on(locations, l.tier, l.node_id, 0);
    if i < locations.len() {
        locations.update(i, l)
    } else {
        locations.push(l)
    }
}

/// Locations without those in a tier of a node.
pub open spec fn absent_from(
    locations: Seq<LocationView>,
    tier: i32,
    node_id: Seq<char>,
) -> Seq<LocationView> {
    locations.filter(|l: LocationView| !(l.tier == tier && l.node_id == node_id))
}

/// The record after a location was published or withdrawn.
pub open spec fn relocated(meta: BlockMetaView, l: LocationView, present: bool) -> BlockMetaView {
    BlockMetaView {
        locations: if present {
            placed_at(meta.locations, l)
        } else {
            absent_from(meta.locations, l.tier, l.node_id)
        },
        ..meta
    }
}

impl PoolView {
    /// A location of a block was published or withdrawn. A block that left L0 of a
    /// node may be placed there again.
    pub open spec fn published(self, flat: Seq<u8>, l: LocationView, present: bool) -> PoolView {
        let p = self.updated(flat, relocated(self.by_flat[flat].meta, l, present));
        if !present && l.tier == Tier::L0.spec_number() && tier::on_tier_of(
            self.by_flat[flat].meta.locations,
            Tier::L0,
            l.node_id,
        ) {
            PoolView { marks: p.marks.remove((flat, l.node_id)), ..p }
        } else {
            p
        }
    }
}

impl AuthorityView {
    /// What a prefix lookup finds.
    pub open spec fn lookup(
        self,
        k: (Seq<char>, Seq<char>),
        raw_kind: i32,
        prefix: Seq<Seq<u8>>,
        requester: Seq<char>,
    ) -> (Seq<ReusableBlockView>, nat, bool) {
        if prefix.len() > 0 && pool::pool_kind_of(raw_kind) is Ok && self.pool_at(
            k,
            pool::pool_kind_of(raw_kind)->Ok_0,
        ) is Some {
            found(self.pool_at(k, pool::pool_kind_of(raw_kind)->Ok_0)->0, prefix, requester)
        } else {
            (Seq::empty(), 0, false)
        }
    }

    /// A lookup counts what it found as asked for.
    pub open spec fn looked_up(
        self,
        k: (Seq<char>, Seq<char>),
        raw_kind: i32,
        prefix: Seq<Seq<u8>>,
    ) -> AuthorityView {
        if prefix.len() > 0 && pool::pool_kind_of(raw_kind) is Ok && self.pool_at(
            k,
            pool::pool_kind_of(raw_kind)->Ok_0,
        ) is Some {
            let pk = pool::pool_kind_of(raw_kind)->Ok_0;
            let p = self.pool_at(k, pk)->0;
            let n = run_from(p, prefix, 0);
            self.with_pool_at(
                k,
                pk,
                PoolView { freq: touched_all(p.freq, hash_chain::lineage(prefix).take(n as int)), ..p },
            )
        } else {
            self
        }
    }

    /// The record of an address.
    pub open spec fn meta_of(self, id: KvBlockIdView) -> Option<BlockMetaView> {
        match self.entry_at((id.model_id, id.revision), id.pool_kind, id.block_hash) {
            Some(e) => Some(e.meta),
            None => None,
        }
    }

    /// The records of the addresses that are known.
    pub open spec fn metas_of(self, ids: Seq<KvBlockIdView>) -> Seq<BlockMetaView>
        decreases ids.len(),
    {
        if ids.len() == 0 {
            Seq::empty()
        } else {
            match self.meta_of(ids.last()) {
                Some(m) => self.metas_of(ids.drop_last()).push(m),
                None => self.metas_of(ids.drop_last()),
            }
        }
    }

    /// Up to `n` blocks of a pool make room; with how many did.
    pub open spec fn evicted_from(self, k: (Seq<char>, Seq<char>), raw_kind: i32, n: nat) -> (
        AuthorityView,
        nat,
    ) {
        match pool::pool_kind_of(raw_kind) {
            Err(_) => (self, 0),
            Ok(pk) => match self.pool_at(k, pk) {
                None => (self, 0),
                Some(p) => {
                    let (q, gone) = p.evicted(n);
                    (
                        self.with_ns(
                            k,
                            self.spaces[k].with_pool(pk, q).credited(gone.len()),
                        ).with_events(namespace::gone_events(k.0, k.1, namespace::tagged(pk, gone))),
                        gone.len(),
                    )
                },
            },
        }
    }

    /// The references to a block: by requests and by writebacks.
    pub open spec fn refs_of(self, k: (Seq<char>, Seq<char>), raw_kind: i32, flat: Seq<u8>) -> (
        i64,
        i64,
    ) {
        match self.entry_at(k, raw_kind, flat) {
            Some(e) => {
                let a = self.pool_at(k, pool::pool_kind_of(raw_kind)->Ok_0)->0.accounts_of(e.seq);
                (a.request, a.writeback)
            },
            None => (0, 0),
        }
    }

    /// Why a block cannot be changed, if so; the caller's name goes into the
    /// message.
    pub open spec fn block_fault(
        self,
        who: Seq<char>,
        k: (Seq<char>, Seq<char>),
        raw_kind: i32,
        flat: Seq<u8>,
    ) -> Option<Seq<char>> {
        match pool::pool_kind_of(raw_kind) {
            Err(e) => Some(e),
            Ok(pk) => if !self.spaces.contains_key(k) {
                Some("unknown namespace "@ + text::ns_named(k.0, k.1))
            } else if self.spaces[k].pool(pk) is None {
                Some(who + ": unknown pool_kind "@ + text::signed(pk as int))
            } else if !self.spaces[k].pool(pk)->0.by_flat.contains_key(flat) {
                Some(who + ": unknown block"@)
            } else {
                None
            },
        }
    }

    /// A location is published or withdrawn.
    pub open spec fn location_published(
        self,
        k: (Seq<char>, Seq<char>),
        raw_kind: i32,
        flat: Seq<u8>,
        l: LocationView,
        present: bool,
    ) -> (AuthorityView, Result<(), Seq<char>>) {
        match self.block_fault("publish_location"@, k, raw_kind, flat) {
            Some(e) => (self, Err(e)),
            None => {
                let pk = pool::pool_kind_of(raw_kind)->Ok_0;
                let p = self.spaces[k].pool(pk)->0;
                let had = first_on(p.by_flat[flat].meta.locations, l.tier, l.node_id, 0)
                    < p.by_flat[flat].meta.locations.len();
                let q = p.published(flat, l, present);
                let a = self.with_pool_at(k, pk, q);
                (
                    if present || had {
                        a.with_events(seq![authority::moved(k.0, k.1, pk, flat, q.by_flat[flat].meta)])
                    } else {
                        a
                    },
                    Ok(()),
                )
            },
        }
    }

    /// Object storage holds a block, or no longer does.
    pub open spec fn l3_set(
        self,
        k: (Seq<char>, Seq<char>),
        raw_kind: i32,
        flat: Seq<u8>,
        present: bool,
    ) -> (AuthorityView, Result<(), Seq<char>>) {
        match self.block_fault("set_l3_present"@, k, raw_kind, flat) {
            Some(e) => (self, Err(e)),
            None => {
                let pk = pool::pool_kind_of(raw_kind)->Ok_0;
                let p = self.spaces[k].pool(pk)->0;
                let meta = BlockMetaView { l3_present: present, ..p.by_flat[flat].meta };
                (
                    self.with_pool_at(k, pk, p.updated(flat, meta)).with_events(
                        seq![authority::moved(k.0, k.1, pk, flat, meta)],
                    ),
                    Ok(()),
                )
            },
        }
    }

    /// A request is done on a node.
    pub open spec fn barrier_set(self, request_id: Seq<char>, node_id: Seq<char>) -> (
        AuthorityView,
        Result<(), Seq<char>>,
    ) {
        if request_id.len() == 0 {
            (self, Err("RequestBarrier: request_id required"@))
        } else if node_id.len() == 0 {
            (self, Err("RequestBarrier: node_id required"@))
        } else {
            (
                AuthorityView { barriers: self.barriers.insert(request_id, node_id), ..self },
                Ok(()),
            )
        }
    }
}

/// Finds the first location in a tier of a node.
fn find_location(locations: &Vec<Location>, tier: i32, node_id: &String) -> (i: usize)
    ensures
        i == first_on(keys::views(locations@), tier, node_id@, 0),
{
    let ghost ls = keys::views(locations@);
    let mut i: usize = 0;
    while i < locations.len()
        invariant
            i <= locations@.len() == ls.len(),
            ls == keys::views(locations@),
            first_on(ls, tier, node_id@, 0) == first_on(ls, tier, node_id@, i as int),
        decreases locations@.len() - i,
    {
        assert(ls[i as int] == locations@[i as int]@);
        if locations[i].tier == tier && locations[i].node_id.same(node_id) {
            return i;
        }
        i += 1;
    }
    i
}

/// Sets a location.
pub fn place_location(locations: &Vec<Location>, l: Location) -> (r: Vec<Location>)
    ensures
        keys::views(r@) == placed_at(keys::views(locations@), l@),
{
    let at = find_location(locations, l.tier, &l.node_id);
    let mut r = dup_all(locations);
    let ghost v = l@;
    let ghost before = r@;
    proof {
        assert(keys::views(before).len() == keys::views(locations@).len());
        lemma_first_on(keys::views(locations@), l@.tier, l@.node_id, 0);
    }
    if at < r.len() {
        r.set(at, l);
        assert(keys::views(r@) =~= keys::views(before).update(at as int, v));
    } else {
        r.push(l);
        assert(keys::views(r@) =~= keys::views(before).push(v));
    }
    r
}

/// The first location is in the tier of the node, and the number of locations
/// where there is none.
pub proof fn lemma_first_on(locations: Seq<LocationView>, tier: i32, node_id: Seq<char>, i: int)
    requires
        0 <= i <= locations.len(),
    ensures
        ({
            let f = first_on(locations, tier, node_id, i);
            &&& i <= f <= locations.len()
            &&& f < locations.len() ==> locations[f].tier == tier && locations[f].node_id
                == node_id
            &&& forall|j: int|
                i <= j < f ==> !((#[trigger] locations[j]).tier == tier && locations[j].node_id
                    == node_id)
        }),
    decreases locations.len() - i,
{
    if i < locations.len() && !(locations[i].tier == tier && locations[i].node_id == node_id) {
        lemma_first_on(locations, tier, node_id, i + 1);
    }
}

/// Withdraws the locations in a tier of a node.
pub fn withdraw_location(locations: &Vec<Location>, tier: i32, node_id: &String) -> (r: Vec<
    Location,
>)
    ensures
        keys::views(r@) == absent_from(keys::views(locations@), tier, node_id@),
{
    let ghost all = keys::views(locations@);
    let ghost p = |l: LocationView| !(l.tier == tier && l.node_id == node_id@);
    let mut r: Vec<Location> = Vec::new();
    let mut i: usize = 0;
    assert(keys::views(r@) =~= all.take(0).filter(p)) by {
        reveal(Seq::filter);
    }
    while i < locations.len()
        invariant
            i <= locations@.len(),
            all == keys::views(locations@),
            p == (|l: LocationView| !(l.tier == tier && l.node_id == node_id@)),
            keys::views(r@) == all.take(i as int).filter(p),
        decreases locations@.len() - i,
    {
        let l = &locations[i];
        proof {
            reveal(Seq::filter);
            assert(all.take(i + 1).drop_last() =~= all.take(i as int));
            assert(all[i as int] == l@);
        }
        let ghost before = keys::views(r@);
        if !(l.tier == tier && l.node_id.same(node_id)) {
            r.push(l.dup());
            assert(keys::views(r@) =~= before.push(l@));
        }
        i += 1;
    }
    assert(all.take(i as int) =~= all);
    r
}

proof fn lemma_absent_filter(locations: Seq<LocationView>, tier: i32, node_id: Seq<char>)
    requires
        first_on(locations, tier, node_id, 0) >= locations.len(),
    ensures
        absent_from(locations, tier, node_id) == locations,
{
    lemma_first_on(locations, tier, node_id, 0);
    let p = |l: LocationView| !(l.tier == tier && l.node_id == node_id);
    assert forall|i: int| 0 <= i < locations.len() implies p(#[trigger] locations[i]) by {}
    lemma_filter_all(locations, p);
}

proof fn lemma_filter_all<A>(s: Seq<A>, p: spec_fn(A) -> bool)
    requires
        forall|i: int| 0 <= i < s.len() ==> p(#[trigger] s[i]),
    ensures
        s.filter(p) == s,
    decreases s.len(),
{
    reveal(Seq::filter);
    if s.len() > 0 {
        let init = s.drop_last();
        assert forall|i: int| 0 <= i < init.len() implies p(#[trigger] init[i]) by {
            assert(p(s[i]));
        }
        lemma_filter_all(init, p);
        assert(p(s[s.len() - 1]));
        assert(s =~= init.push(s.last()));
    } else {
        assert(s.filter(p) =~= s);
    }
}

/// The first one found is there exactly when there is one.
pub proof fn lemma_had(locations: Seq<LocationView>, tier: Tier, node_id: Seq<char>)
    ensures
        tier::on_tier_of(locations, tier, node_id) == (first_on(locations, tier.spec_number(), node_id, 0)
            < locations.len()),
{
    lemma_first_on(locations, tier.spec_number(), node_id, 0);
    if tier::on_tier_of(locations, tier, node_id) {
        let i = choose|i: int|
            0 <= i < locations.len() && (#[trigger] locations[i]).tier == tier.spec_number()
                && locations[i].node_id == node_id;
        assert(locations[i].tier == tier.spec_number());
    }
}

proof fn lemma_run(p: PoolView, prefix: Seq<Seq<u8>>, i: int)
    requires
        0 <= i <= prefix.len(),
    ensures
        run_from(p, prefix, i) <= prefix.len() - i,
    decreases prefix.len() - i,
{
    if i < prefix.len() && matched(p, prefix, i) {
        lemma_run(p, prefix, i + 1);
    }
}

/// Looks a prefix up in a pool.
fn find_prefix(pool: &Pool, prefix_hashes: &[Vec<u8>], seqs: &Vec<SequenceHash>, requester: &str) -> (r:
    (Vec<ReusableBlock>, u32, bool))
    requires
        prefix_hashes@.len() <= MAX_CHAIN,
        seqs@ == hash_chain::lineage(keys::views(prefix_hashes@)),
    ensures
        keys::views(r.0@) == found(pool@, keys::views(prefix_hashes@), requester@).0,
        r.1 == found(pool@, keys::views(prefix_hashes@), requester@).1,
        r.2 == found(pool@, keys::views(prefix_hashes@), requester@).2,
{
    let ghost prefix = keys::views(prefix_hashes@);
    let ghost n = run_from(pool@, prefix, 0);
    let ghost blocks = Seq::new(
        n,
        |i: int| reusable(pool@.by_flat[prefix[i]].meta, requester@),
    );
    let mut out: Vec<ReusableBlock> = Vec::new();
    let mut hit: u32 = 0;
    let mut all_local = true;
    let mut i: usize = 0;
    let mut going = true;
    assert(keys::views(out@) =~= blocks.take(0));
    while going && i < prefix_hashes.len()
        invariant
            i <= prefix_hashes@.len() == prefix.len() <= MAX_CHAIN,
            seqs@ == hash_chain::lineage(prefix),
            seqs@.len() == prefix.len(),
            prefix == keys::views(prefix_hashes@),
            n == run_from(pool@, prefix, 0),
            blocks == Seq::new(
                n,
                |i: int| reusable(pool@.by_flat[prefix[i]].meta, requester@),
            ),
            hit == i,
            i <= n,
            n == i + run_from(pool@, prefix, i as int),
            !going ==> n == i && i < prefix.len(),
            keys::views(out@) == blocks.take(i as int),
            all_local == ((going || i == prefix.len()) && forall|j: int|
                0 <= j < i ==> (#[trigger] blocks[j]).local_hit),
        decreases prefix.len() - i + (if going {
            1int
        } else {
            0int
        }),
    {
        proof {
            lemma_run(pool@, prefix, i as int);
            assert(prefix[i as int] == prefix_hashes@[i as int]@);
        }
        match pool.by_flat.get(&prefix_hashes[i]) {
            Some(e) if e.seq_hash == seqs[i] => {
                assert(matched(pool@, prefix, i as int));
                let local = has_tier_on(&e.meta.locations, Tier::L0, requester);
                let meta = e.meta.dup();
                let b = ReusableBlock {
                    id: dup_opt(&e.meta.id),
                    meta: Some(meta),
                    local_hit: local,
                };
                let ghost v = b@;
                assert(v == reusable(e@.meta, requester@));
                assert(blocks[i as int] == v);
                let ghost before = keys::views(out@);
                out.push(b);
                assert(keys::views(out@) =~= before.push(v));
                assert(blocks.take(i + 1) =~= blocks.take(i as int).push(v));
                if !local {
                    all_local = false;
                    assert(!blocks[i as int].local_hit);
                }
                hit += 1;
                i += 1;
            },
            _ => {
                assert(!matched(pool@, prefix, i as int));
                all_local = false;
                going = false;
            },
        }
    }
    assert(blocks.take(i as int) =~= blocks);
    (out, hit, all_local && hit > 0)
}

impl Authority {
    /// The pool of a kind on the wire.
    pub(crate) fn pool_of(&self, model_id: &str, revision: &str, raw_kind: i32) -> (r: Option<&Pool>)
        ensures
            match r {
                Some(p) => pool::pool_kind_of(raw_kind) is Ok && self@.pool_at(
                    (model_id@, revision@),
                    pool::pool_kind_of(raw_kind)->Ok_0,
                ) == Some(p@),
                None => pool::pool_kind_of(raw_kind) is Err || self@.pool_at(
                    (model_id@, revision@),
                    pool::pool_kind_of(raw_kind)->Ok_0,
                ) is None,
            },
    {
        match resolve_pool_kind(raw_kind) {
            Err(_) => None,
            Ok(pk) => match self.ns(model_id, revision) {
                Some(ns) => ns.pool(pk),
                None => None,
            },
        }
    }

    /// A block by its address in parts.
    pub(crate) fn entry_of(
        &self,
        model_id: &str,
        revision: &str,
        raw_kind: i32,
        flat: &Vec<u8>,
    ) -> (r: Option<&Entry>)
        ensures
            match r {
                Some(e) => self@.entry_at((model_id@, revision@), raw_kind, flat@) == Some(e@),
                None => self@.entry_at((model_id@, revision@), raw_kind, flat@) is None,
            },
    {
        match self.pool_of(model_id, revision, raw_kind) {
            Some(p) => p.by_flat.get(flat),
            None => None,
        }
    }

    /// Looks a prefix up without counting it: the longest run of blocks from its
    /// start that are there with the lineage that it gives them.
    pub fn peek_prefix(
        &self,
        model_id: &str,
        revision: &str,
        pool_kind: i32,
        prefix_hashes: &[Vec<u8>],
        requester: &str,
    ) -> (r: (Vec<ReusableBlock>, u32, bool))
        requires
            prefix_hashes@.len() <= MAX_CHAIN,
        ensures
            (keys::views(r.0@), r.1 as nat, r.2) == self@.lookup(
                (model_id@, revision@),
                pool_kind,
                keys::views(prefix_hashes@),
                requester@,
            ),
    {
        let none: Vec<ReusableBlock> = Vec::new();
        assert(keys::views(none@) =~= Seq::empty());
        if prefix_hashes.len() == 0 {
            return (none, 0, false);
        }
        match self.pool_of(model_id, revision, pool_kind) {
            None => (none, 0, false),
            Some(pool) => {
                let seqs = lineage_from_prefix(prefix_hashes);
                find_prefix(pool, prefix_hashes, &seqs, requester)
            },
        }
    }

    /// Looks a prefix up, and counts the blocks that it finds as asked for.
    pub fn lookup_prefix(
        &mut self,
        model_id: &str,
        revision: &str,
        pool_kind: i32,
        prefix_hashes: &[Vec<u8>],
        requester: &str,
    ) -> (r: (Vec<ReusableBlock>, u32, bool))
        requires
            old(self).wf(),
            prefix_hashes@.len() <= MAX_CHAIN,
        ensures
            (keys::views(r.0@), r.1 as nat, r.2) == old(self)@.lookup(
                (model_id@, revision@),
                pool_kind,
                keys::views(prefix_hashes@),
                requester@,
            ),
            final(self)@ == old(self)@.looked_up(
                (model_id@, revision@),
                pool_kind,
                keys::views(prefix_hashes@),
            ),
            final(self).wf(),
    {
        let r = self.peek_prefix(model_id, revision, pool_kind, prefix_hashes, requester);
        if prefix_hashes.len() == 0 {
            return r;
        }
        let pk: i32 = match resolve_pool_kind(pool_kind) {
            Ok(pk) => pk,
            Err(_) => return r,
        };
        let key = NamespaceKey::new(model_id, revision);
        match self.take_pool(&key, pk) {
            None => {},
            Some(mut pool) => {
                let ghost p = pool@;
                let ghost prefix = keys::views(prefix_hashes@);
                let seqs = lineage_from_prefix(prefix_hashes);
                proof {
                    lemma_run(p, prefix, 0);
                }
                let mut i: usize = 0;
                assert(seqs@.take(0) =~= Seq::empty());
                while i < r.1 as usize
                    invariant
                        i <= r.1 <= seqs@.len(),
                        pool@ == (PoolView {
                            freq: touched_all(p.freq, seqs@.take(i as int)),
                            ..p
                        }),
                    decreases r.1 - i,
                {
                    assert(seqs@.take(i + 1).drop_last() =~= seqs@.take(i as int));
                    pool.freq.touch(&seqs[i]);
                    i += 1;
                }
                assert(pool@.refs == p.refs && pool@.inactive == p.inactive);
                self.put_pool(&key, pk, pool);
            },
        }
        r
    }

    /// The records of the addresses that are known.
    pub fn locate(&self, ids: &[KvBlockId]) -> (r: Vec<BlockMeta>)
        ensures
            keys::views(r@) == self@.metas_of(keys::views(ids@)),
    {
        let ghost all = keys::views(ids@);
        let mut r: Vec<BlockMeta> = Vec::new();
        let mut i: usize = 0;
        assert(all.take(0) =~= Seq::empty());
        assert(keys::views(r@) =~= Seq::empty());
        while i < ids.len()
            invariant
                i <= ids@.len(),
                all == keys::views(ids@),
                keys::views(r@) == self@.metas_of(all.take(i as int)),
            decreases ids@.len() - i,
        {
            let id = &ids[i];
            proof {
                assert(all.take(i + 1).drop_last() =~= all.take(i as int));
                assert(all[i as int] == id@);
            }
            let ghost before = keys::views(r@);
            if let Some(e) = self.entry_of(
                id.model_id.as_str(),
                id.revision.as_str(),
                id.pool_kind,
                &id.block_hash,
            ) {
                r.push(e.meta.dup());
                assert(keys::views(r@) =~= before.push(e@.meta));
            }
            i += 1;
        }
        assert(all.take(i as int) =~= all);
        r
    }

    /// Lets up to `n` blocks of a pool make room; returns how many did.
    pub fn evict_n(&mut self, model_id: &str, revision: &str, pool_kind: i32, n: usize) -> (count:
        usize)
        requires
            old(self).wf(),
        ensures
            final(self)@ == old(self)@.evicted_from((model_id@, revision@), pool_kind, n as nat).0,
            count == old(self)@.evicted_from((model_id@, revision@), pool_kind, n as nat).1,
            final(self).wf(),
    {
        let pk: i32 = match resolve_pool_kind(pool_kind) {
            Ok(pk) => pk,
            Err(_) => return 0,
        };
        let key = NamespaceKey::new(model_id, revision);
        match self.namespaces.remove(&key) {
            None => {
                assert(self@ =~= old(self)@);
                0
            },
            Some(mut ns) => {
                assert(ns@.wf()) by {
                    assert(old(self)@.spaces.contains_key(key@));
                }
                match ns.take_pool(pk) {
                    None => {
                        self.namespaces.insert(key, ns);
                        assert(self@ =~= old(self)@);
                        0
                    },
                    Some(mut pool) => {
                        let flats = pool.drop_inactive_victims(n as u64);
                        ns.put_pool(pk, pool);
                        ns.credit(flats.len() as u64);
                        let ghost now = ns@;
                        self.namespaces.insert(key, ns);
                        assert(self@ =~= old(self)@.with_ns((model_id@, revision@), now));
                        let gone = tag_all(pk, &flats);
                        self.note(invalidated_events_for(model_id, revision, &gone));
                        flats.len()
                    },
                }
            },
        }
    }

    /// How many blocks of a pool may make room.
    pub fn inactive_len(&self, model_id: &str, revision: &str, pool_kind: i32) -> (n: usize)
        ensures
            n == (if pool::pool_kind_of(pool_kind) is Ok && self@.pool_at(
                (model_id@, revision@),
                pool::pool_kind_of(pool_kind)->Ok_0,
            ) is Some {
                self@.pool_at(
                    (model_id@, revision@),
                    pool::pool_kind_of(pool_kind)->Ok_0,
                )->0.inactive.nodes.len()
            } else {
                0
            }),
    {
        match self.pool_of(model_id, revision, pool_kind) {
            Some(p) => p.inactive.len(),
            None => 0,
        }
    }

    /// The references to a block: by requests and by writebacks.
    pub fn global_ref_by_kind(
        &self,
        model_id: &str,
        revision: &str,
        pool_kind: i32,
        flat: &[u8],
    ) -> (r: (i64, i64))
        ensures
            r == self@.refs_of((model_id@, revision@), pool_kind, flat@),
    {
        let flat = to_bytes(flat);
        match self.pool_of(model_id, revision, pool_kind) {
            None => (0, 0),
            Some(p) => match p.by_flat.get(&flat) {
                None => (0, 0),
                Some(e) => {
                    let a = p.accounts(&e.seq_hash);
                    (a.request, a.writeback)
                },
            },
        }
    }

    /// All references to a block.
    pub fn global_ref(&self, model_id: &str, revision: &str, pool_kind: i32, flat: &[u8]) -> (n: i64)
        requires
            ({
                let (a, b) = self@.refs_of((model_id@, revision@), pool_kind, flat@);
                i64::MIN <= a + b <= i64::MAX
            }),
        ensures
            ({
                let (a, b) = self@.refs_of((model_id@, revision@), pool_kind, flat@);
                n == a + b
            }),
    {
        let (request, writeback) = self.global_ref_by_kind(model_id, revision, pool_kind, flat);
        request + writeback
    }

    /// Records that a request is done on a node.
    pub fn complete_barrier(&mut self, request_id: &str, node_id: &str) -> (r: Result<(), String>)
        ensures
            final(self)@ == old(self)@.barrier_set(request_id@, node_id@).0,
            keys::told(r) == old(self)@.barrier_set(request_id@, node_id@).1,
            old(self).wf() ==> final(self).wf(),
    {
        if request_id.is_empty() {
            return Err(text("RequestBarrier: request_id required"));
        }
        if node_id.is_empty() {
            return Err(text("RequestBarrier: node_id required"));
        }
        self.completed_barriers.insert(text(request_id), text(node_id));
        assert(self@ =~= old(self)@.barrier_set(request_id@, node_id@).0);
        Ok(())
    }

    /// Tells whether a request is done.
    pub fn barrier_completed(&self, request_id: &str) -> (b: bool)
        ensures
            b == self@.barriers.contains_key(request_id@),
    {
        self.completed_barriers.contains_key(&text(request_id))
    }

    /// Checks that a block can be changed, and takes its pool out.
    pub(crate) fn open_block(
        &mut self,
        who: &str,
        key: &NamespaceKey,
        pool_kind: i32,
        flat: &Vec<u8>,
    ) -> (r: Result<(i32, Pool), String>)
        requires
            old(self).wf(),
        ensures
            match r {
                Err(e) => old(self)@.block_fault(who@, key@, pool_kind, flat@) == Some(e@)
                    && final(self)@ == old(self)@,
                Ok((pk, p)) => {
                    &&& old(self)@.block_fault(who@, key@, pool_kind, flat@) is None
                    &&& pool::pool_kind_of(pool_kind) == Ok::<i32, Seq<char>>(pk)
                    &&& old(self)@.pool_at(key@, pk) == Some(p@)
                    &&& p@.wf()
                    &&& p@.by_flat.contains_key(flat@)
                    &&& final(self)@.spaces.contains_key(key@)
                    &&& forall|q: PoolView|
                        final(self)@.with_pool_at(key@, pk, q) == #[trigger] old(
                            self,
                        )@.with_pool_at(key@, pk, q)
                },
            },
            final(self).wf(),
    {
        let pk: i32 = match resolve_pool_kind(pool_kind) {
            Ok(pk) => pk,
            Err(e) => return Err(e),
        };
        match self.namespaces.get(key) {
            None => {
                return Err(
                    joined(
                        "unknown namespace ",
                        ns_text(key.model_id.as_str(), key.revision.as_str()).as_str(),
                    ),
                );
            },
            Some(ns) => match ns.pool(pk) {
                None => {
                    let mut e = joined(who, ": unknown pool_kind ");
                    e.append(signed_text(pk as i64).as_str());
                    return Err(e);
                },
                Some(p) => {
                    if !p.by_flat.contains_key(flat) {
                        return Err(joined(who, ": unknown block"));
                    }
                },
            },
        }
        match self.take_pool(key, pk) {
            Some(p) => Ok((pk, p)),
            None => vstd::pervasive::unreached(),
        }
    }

    /// Publishes or withdraws a location without coordinates of its own.
    pub fn publish_location(
        &mut self,
        model_id: &str,
        revision: &str,
        pool_kind: i32,
        flat: &[u8],
        tier: Tier,
        node_id: &str,
        present: bool,
    ) -> (r: Result<(), String>)
        requires
            old(self).wf(),
        ensures
            ({
                let l = LocationView {
                    tier: tier.spec_number(),
                    node_id: node_id@,
                    segment_id: 1,
                    offset: 0,
                };
                let (a, e) = old(self)@.location_published(
                    (model_id@, revision@),
                    pool_kind,
                    flat@,
                    l,
                    present,
                );
                final(self)@ == a && keys::told(r) == e
            }),
            final(self).wf(),
    {
        self.publish_location_at(
            model_id,
            revision,
            pool_kind,
            flat,
            tier,
            node_id,
            1,
            0,
            present,
        )
    }

    /// Publishes a location, or new coordinates for it, or withdraws it.
    pub fn publish_location_at(
        &mut self,
        model_id: &str,
        revision: &str,
        pool_kind: i32,
        flat: &[u8],
        tier: Tier,
        node_id: &str,
        segment_id: u64,
        offset: u64,
        present: bool,
    ) -> (r: Result<(), String>)
        requires
            old(self).wf(),
        ensures
            ({
                let l = LocationView {
                    tier: tier.spec_number(),
                    node_id: node_id@,
                    segment_id,
                    offset,
                };
                let (a, e) = old(self)@.location_published(
                    (model_id@, revision@),
                    pool_kind,
                    flat@,
                    l,
                    present,
                );
                final(self)@ == a && keys::told(r) == e
            }),
            final(self).wf(),
    {
        let key = NamespaceKey::new(model_id, revision);
        let flat = to_bytes(flat);
        let node = text(node_id);
        let (pk, mut pool) = match self.open_block("publish_location", &key, pool_kind, &flat) {
            Ok(x) => x,
            Err(e) => return Err(e),
        };
        let ghost p = pool@;
        let ghost l = LocationView {
            tier: tier.spec_number(),
            node_id: node_id@,
            segment_id,
            offset,
        };
        let mut meta = match pool.by_flat.get(&flat) {
            Some(e) => e.meta.dup(),
            None => vstd::pervasive::unreached(),
        };
        let ghost was = meta@;
        let t: i32 = tier.number();
        let had = has_tier_on(&meta.locations, tier, node_id);
        proof {
            lemma_had(was.locations, tier, node_id@);
        }
        if present {
            meta.locations = place_location(
                &meta.locations,
                Location { tier: t, node_id: text(node_id), segment_id, offset },
            );
        } else if had {
            meta.locations = withdraw_location(&meta.locations, t, &node);
            if t == Tier::L0.number() {
                pool.marks.remove(&Mark { flat: flat.dup(), node_id: text(node_id) });
            }
        } else {
            proof {
                lemma_absent_filter(was.locations, l.tier, l.node_id);
            }
        }
        assert(meta@ =~= relocated(was, l, present));
        let event = upsert_event(
            ViewKind::Moved,
            id_or_public(&meta.id, model_id, revision, pk, &flat),
            dup_all(&meta.locations),
            meta.l3_present,
            0,
        );
        pool.update(&flat, meta);
        assert(tier == Tier::L0 <==> t == Tier::L0.spec_number());
        assert(pool@ =~= p.published(flat@, l, present));
        self.put_pool(&key, pk, pool);
        if present || had {
            self.note_one(event);
        }
        Ok(())
    }

    /// Records whether object storage holds a block.
    pub fn set_l3_present(
        &mut self,
        model_id: &str,
        revision: &str,
        pool_kind: i32,
        flat: &[u8],
        present: bool,
    ) -> (r: Result<(), String>)
        requires
            old(self).wf(),
        ensures
            final(self)@ == old(self)@.l3_set(
                (model_id@, revision@),
                pool_kind,
                flat@,
                present,
            ).0,
            keys::told(r) == old(self)@.l3_set((model_id@, revision@), pool_kind, flat@, present).1,
            final(self).wf(),
    {
        let key = NamespaceKey::new(model_id, revision);
        let flat = to_bytes(flat);
        let (pk, mut pool) = match self.open_block("set_l3_present", &key, pool_kind, &flat) {
            Ok(x) => x,
            Err(e) => return Err(e),
        };
        let mut meta = match pool.by_flat.get(&flat) {
            Some(e) => e.meta.dup(),
            None => vstd::pervasive::unreached(),
        };
        meta.l3_present = present;
        let event = upsert_event(
            ViewKind::Moved,
            id_or_public(&meta.id, model_id, revision, pk, &flat),
            dup_all(&meta.locations),
            meta.l3_present,
            0,
        );
        pool.update(&flat, meta);
        self.put_pool(&key, pk, pool);
        self.note_one(event);
        Ok(())
    }

    /// Tells whether a node holds a block in L0.
    pub fn has_l0_on(
        &self,
        model_id: &str,
        revision: &str,
        pool_kind: i32,
        flat: &[u8],
        node_id: &str,
    ) -> (b: bool)
        ensures
            b == (self@.entry_at((model_id@, revision@), pool_kind, flat@) is Some && tier::on_tier_of(
                self@.entry_at((model_id@, revision@), pool_kind, flat@)->0.meta.locations,
                Tier::L0,
                node_id@,
            )),
    {
        match self.entry_of(model_id, revision, pool_kind, &to_bytes(flat)) {
            Some(e) => has_tier_on(&e.meta.locations, Tier::L0, node_id),
            None => false,
        }
    }

    /// Tells whether any node holds a block in L0.
    pub fn has_l0_presence(&self, model_id: &str, revision: &str, pool_kind: i32, flat: &[u8]) -> (b:
        bool)
        ensures
            b == (self@.entry_at((model_id@, revision@), pool_kind, flat@) is Some && tier::on_tier(
                self@.entry_at((model_id@, revision@), pool_kind, flat@)->0.meta.locations,
                Tier::L0,
            )),
    {
        match self.entry_of(model_id, revision, pool_kind, &to_bytes(flat)) {
            Some(e) => has_block::<TierL0>(&e.meta.locations),
            None => false,
        }
    }
}

/// Names the pool of each of some blocks.
pub fn tag_all(pool_kind: i32, flats: &Vec<Vec<u8>>) -> (r: Vec<(i32, Vec<u8>)>)
    ensures
        keys::views(r@) == namespace::tagged(pool_kind, keys::views(flats@)),
{
    let mut r: Vec<(i32, Vec<u8>)> = Vec::with_capacity(flats.len());
    let mut i: usize = 0;
    while i < flats.len()
        invariant
            i <= flats@.len(),
            r@.len() == i,
            forall|j: int|
                0 <= j < i ==> (#[trigger] r@[j])@ == namespace::tagged(pool_kind, keys::views(flats@))[j],
        decreases flats@.len() - i,
    {
        r.push((pool_kind, flats[i].dup()));
        i += 1;
    }
    assert(keys::views(r@) =~= namespace::tagged(pool_kind, keys::views(flats@)));
    r
}

} // verus!
