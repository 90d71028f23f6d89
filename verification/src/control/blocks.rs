//! All blocks of all namespaces, in order.

use vstd::prelude::*;

use crate::base::keys;
use crate::base::keys::Dup;
use crate::base::listing;
use crate::base::listing::sorted_keys;
use crate::control::authority;
use crate::control::authority::{blocks_of, Authority, AuthorityView, Spaces};
use crate::control::namespace::{BlockKey, BlockKeyView, NamespaceKey, NsView};
use crate::control::pool;
use crate::control::pool::{Entry, EntryView};
use crate::proto::{KvBlockIdView, PoolKind};

verus! {

/// Blocks of one namespace as keys.
pub open spec fn keyed(k: (Seq<char>, Seq<char>), blocks: Seq<(i32, Seq<u8>)>) -> Seq<BlockKeyView> {
    blocks.map_values(
        |g: (i32, Seq<u8>)|
            BlockKeyView { model_id: k.0, revision: k.1, pool_kind: g.0, flat: g.1 },
    )
}

/// The blocks of some namespaces.
pub open spec fn blocks_in(spaces: Spaces, names: Seq<(Seq<char>, Seq<char>)>) -> Seq<BlockKeyView>
    decreases names.len(),
{
    if names.len() == 0 {
        Seq::empty()
    } else {
        blocks_in(spaces, names.drop_last()) + keyed(names.last(), authority::ns_blocks(spaces[names.last()]))
    }
}

impl BlockKeyView {
    /// The namespace of a block.
    pub open spec fn space(self) -> (Seq<char>, Seq<char>) {
        (self.model_id, self.revision)
    }
}

impl AuthorityView {
    /// Every block, by namespace, pool and hash.
    pub open spec fn all_blocks(self) -> Seq<BlockKeyView> {
        blocks_in(self.spaces, self.names())
    }

    /// The block is known.
    pub open spec fn has_block(self, b: BlockKeyView) -> bool {
        self.pool_at(b.space(), b.pool_kind) is Some && self.pool_at(
            b.space(),
            b.pool_kind,
        )->0.by_flat.contains_key(b.flat)
    }

    /// What is known of a block.
    pub open spec fn block(self, b: BlockKeyView) -> EntryView {
        self.pool_at(b.space(), b.pool_kind)->0.by_flat[b.flat]
    }

    /// The address of a block.
    pub open spec fn block_id(self, b: BlockKeyView) -> KvBlockIdView {
        pool::id_or(self.block(b).meta.id, b.model_id, b.revision, b.pool_kind, b.flat)
    }

    /// Only finitely many blocks are known.
    pub open spec fn finite(self) -> bool {
        &&& self.spaces.dom().finite()
        &&& forall|k: (Seq<char>, Seq<char>), pk: i32|
            (#[trigger] self.pool_at(k, pk)) is Some ==> self.pool_at(
                k,
                pk,
            )->0.by_flat.dom().finite()
    }
}

/// An authority knows finitely many blocks.
pub proof fn known_is_finite(a: Authority)
    ensures
        a@.finite(),
{
    a.namespaces.has_finite_keys();
    assert forall|k: (Seq<char>, Seq<char>), pk: i32|
        (#[trigger] a@.pool_at(k, pk)) is Some implies a@.pool_at(k, pk)->0.by_flat.dom().finite() by {
        let ns = a.namespaces.stored_at(k);
        if ns.target is Some {
            ns.target->0.by_flat.has_finite_keys();
        }
        if ns.draft is Some {
            ns.draft->0.by_flat.has_finite_keys();
        }
    }
}

proof fn lemma_ns_blocks_known(ns: NsView, i: int)
    requires
        0 <= i < authority::ns_blocks(ns).len(),
        ns.target is Some ==> ns.target->0.by_flat.dom().finite(),
        ns.draft is Some ==> ns.draft->0.by_flat.dom().finite(),
    ensures
        ({
            let g = authority::ns_blocks(ns)[i];
            ns.pool(g.0) is Some && ns.pool(g.0)->0.by_flat.contains_key(g.1)
        }),
{
    let a = authority::flats_of(ns.target);
    let b = authority::flats_of(ns.draft);
    if ns.target is Some {
        listing::listing_lists::<Vec<u8>>(ns.target->0.by_flat.dom());
    }
    if ns.draft is Some {
        listing::listing_lists::<Vec<u8>>(ns.draft->0.by_flat.dom());
    }
    if i < a.len() {
        assert(a.to_set().contains(a[i]));
    } else {
        assert(b.to_set().contains(b[i - a.len()]));
    }
}

proof fn lemma_blocks_in_known(a: AuthorityView, names: Seq<(Seq<char>, Seq<char>)>, i: int)
    requires
        a.finite(),
        forall|j: int| 0 <= j < names.len() ==> a.spaces.contains_key(#[trigger] names[j]),
        0 <= i < blocks_in(a.spaces, names).len(),
    ensures
        a.has_block(blocks_in(a.spaces, names)[i]),
    decreases names.len(),
{
    let init = names.drop_last();
    let first = blocks_in(a.spaces, init);
    if i < first.len() {
        assert forall|j: int| 0 <= j < init.len() implies a.spaces.contains_key(
            #[trigger] init[j],
        ) by {
            assert(a.spaces.contains_key(names[j]));
        }
        lemma_blocks_in_known(a, init, i);
    } else {
        let k = names.last();
        assert(a.spaces.contains_key(names[names.len() - 1]));
        let ns = a.spaces[k];
        assert(a.pool_at(k, PoolKind::Target.spec_number()) == ns.target);
        assert(a.pool_at(k, PoolKind::Draft.spec_number()) == ns.draft);
        lemma_ns_blocks_known(ns, i - first.len());
    }
}

/// What is listed is known.
pub proof fn all_blocks_known(a: AuthorityView, i: int)
    requires
        a.finite(),
        0 <= i < a.all_blocks().len(),
    ensures
        a.has_block(a.all_blocks()[i]),
{
    listing::listing_lists::<NamespaceKey>(a.spaces.dom());
    let names = a.names();
    assert forall|j: int| 0 <= j < names.len() implies a.spaces.contains_key(
        #[trigger] names[j],
    ) by {
        assert(names.to_set().contains(names[j]));
    }
    lemma_blocks_in_known(a, names, i);
}

proof fn lemma_known_listed(a: AuthorityView, names: Seq<(Seq<char>, Seq<char>)>, b: BlockKeyView)
    requires
        a.finite(),
        a.has_block(b),
        names.contains(b.space()),
    ensures
        blocks_in(a.spaces, names).contains(b),
    decreases names.len(),
{
    let init = names.drop_last();
    let first = blocks_in(a.spaces, init);
    let all = blocks_in(a.spaces, names);
    if init.contains(b.space()) {
        lemma_known_listed(a, init, b);
        let i = choose|i: int| 0 <= i < first.len() && first[i] == b;
        assert(all[i] == b);
    } else {
        let j = choose|j: int| 0 <= j < names.len() && names[j] == b.space();
        if j < init.len() {
            assert(init[j] == b.space());
        }
        let k = names.last();
        let ns = a.spaces[k];
        assert(a.pool_at(k, PoolKind::Target.spec_number()) == ns.target);
        assert(a.pool_at(k, PoolKind::Draft.spec_number()) == ns.draft);
        let fa = authority::flats_of(ns.target);
        let fb = authority::flats_of(ns.draft);
        let m = if b.pool_kind == PoolKind::Target.spec_number() {
            listing::listing_lists::<Vec<u8>>(ns.target->0.by_flat.dom());
            assert(fa.to_set().contains(b.flat));
            choose|m: int| 0 <= m < fa.len() && fa[m] == b.flat
        } else {
            listing::listing_lists::<Vec<u8>>(ns.draft->0.by_flat.dom());
            assert(fb.to_set().contains(b.flat));
            fa.len() + choose|m: int| 0 <= m < fb.len() && fb[m] == b.flat
        };
        assert(keyed(k, authority::ns_blocks(ns))[m] == b);
        assert(all[first.len() + m] == b);
    }
}

/// What is known is listed.
pub proof fn known_blocks_listed(a: AuthorityView, b: BlockKeyView)
    requires
        a.finite(),
        a.has_block(b),
    ensures
        a.all_blocks().contains(b),
{
    listing::listing_lists::<NamespaceKey>(a.spaces.dom());
    assert(a.names().to_set().contains(b.space()));
    lemma_known_listed(a, a.names(), b);
}

fn push_keys(out: &mut Vec<BlockKey>, k: &NamespaceKey, blocks: &Vec<(i32, Vec<u8>)>)
    ensures
        keys::views(final(out)@) == keys::views(old(out)@) + keyed(k@, keys::views(blocks@)),
{
    let ghost first = keys::views(out@);
    let ghost all = keys::views(blocks@);
    let mut i: usize = 0;
    assert(first + keyed(k@, all.take(0)) =~= first);
    while i < blocks.len()
        invariant
            i <= blocks@.len(),
            all == keys::views(blocks@),
            keys::views(out@) == first + keyed(k@, all.take(i as int)),
        decreases blocks@.len() - i,
    {
        let ghost before = keys::views(out@);
        let b = BlockKey {
            model_id: k.model_id.dup(),
            revision: k.revision.dup(),
            pool_kind: blocks[i].0,
            flat: blocks[i].1.dup(),
        };
        let ghost v = b@;
        out.push(b);
        assert(keys::views(out@) =~= before.push(v));
        assert(all[i as int] == blocks@[i as int]@);
        assert(first + keyed(k@, all.take(i + 1)) =~= before.push(v));
        i += 1;
    }
    assert(all.take(i as int) =~= all);
}

impl Authority {
    /// Every block, by namespace, pool and hash.
    pub(crate) fn block_keys(&self) -> (r: Vec<BlockKey>)
        ensures
            keys::views(r@) == self@.all_blocks(),
            forall|i: int| 0 <= i < r@.len() ==> self@.has_block((#[trigger] keys::views(r@)[i])),
    {
        let names = sorted_keys(&self.namespaces);
        let ghost all = keys::views(names@);
        let mut r: Vec<BlockKey> = Vec::new();
        let mut i: usize = 0;
        assert(keys::views(r@) =~= blocks_in(self@.spaces, all.take(0)));
        while i < names.len()
            invariant
                i <= names@.len(),
                all == keys::views(names@),
                listing::lists::<NamespaceKey>(all, self@.spaces.dom()),
                keys::views(r@) == blocks_in(self@.spaces, all.take(i as int)),
                forall|i: int| 0 <= i < r@.len() ==> self@.has_block((#[trigger] keys::views(r@)[i])),
            decreases names@.len() - i,
        {
            let k = &names[i];
            proof {
                assert(all[i as int] == k@);
                assert(all.to_set().contains(k@));
                assert(all.take(i + 1).drop_last() =~= all.take(i as int));
            }
            if let Some(ns) = self.namespaces.get(k) {
                let ghost before = keys::views(r@);
                let blocks = blocks_of(ns);
                push_keys(&mut r, k, &blocks);
                proof {
                    if ns.target is Some {
                        ns.target->0.by_flat.has_finite_keys();
                    }
                    if ns.draft is Some {
                        ns.draft->0.by_flat.has_finite_keys();
                    }
                }
                let ghost more = keyed(k@, authority::ns_blocks(ns@));
                assert(keys::views(r@) == before + more);
                assert forall|j: int| 0 <= j < r@.len() implies self@.has_block(
                    (#[trigger] keys::views(r@)[j]),
                ) by {
                    assert(keys::views(r@).len() == r@.len());
                    if j < before.len() {
                        assert(keys::views(r@)[j] == before[j]);
                    } else {
                        lemma_ns_blocks_known(ns@, j - before.len());
                        assert(keys::views(r@)[j] == more[j - before.len()]);
                    }
                }
            }
            i += 1;
        }
        assert(all.take(i as int) =~= all);
        r
    }

    /// What is known of a block.
    pub(crate) fn entry_by(&self, b: &BlockKey) -> (r: Option<&Entry>)
        ensures
            match r {
                Some(e) => self@.has_block(b@) && self@.block(b@) == e@,
                None => !self@.has_block(b@),
            },
    {
        match self.ns(b.model_id.as_str(), b.revision.as_str()) {
            Some(ns) => match ns.pool(b.pool_kind) {
                Some(p) => p.by_flat.get(&b.flat),
                None => None,
            },
            None => None,
        }
    }
}

} // verus!
