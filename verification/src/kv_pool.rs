//! A pool that keeps blocks' bytes by address and knows nothing else of them.

use vstd::prelude::*;

use crate::base::keys;
use crate::base::keys::Dup;
use crate::base::text;
use crate::base::text::{decimal_text, text};
use crate::proto::{
    Ack, AckView, GetBlocksRequest, GetBlocksResponse, KvBlockIdView, OpaqueBlock, OpaqueBlockView,
    PutBlocksRequest,
};
use crate::transfer::bytes;
use crate::transfer::bytes::{ByteKeyView, Bytes, InMemoryByteStore};

verus! {

/// The blocks are kept, in order; one without an address is not.
pub open spec fn put_all(store: Bytes, blocks: Seq<OpaqueBlockView>) -> Bytes
    decreases blocks.len(),
{
    if blocks.len() == 0 {
        store
    } else {
        let before = put_all(store, blocks.drop_last());
        match blocks.last().id {
            Some(id) => before.insert(ByteKeyView::of(id), blocks.last().data),
            None => before,
        }
    }
}

/// The number of blocks without an address.
pub open spec fn unaddressed(blocks: Seq<OpaqueBlockView>) -> nat
    decreases blocks.len(),
{
    if blocks.len() == 0 {
        0
    } else {
        unaddressed(blocks.drop_last()) + if blocks.last().id is None {
            1nat
        } else {
            0nat
        }
    }
}

/// The answer to a put: no, where a block had no address.
pub open spec fn put_answer(blocks: Seq<OpaqueBlockView>) -> AckView {
    if unaddressed(blocks) == 0 {
        AckView { ok: true, err: Seq::empty(), backpressure: None }
    } else {
        AckView {
            ok: false,
            err: "skipped "@ + text::decimal(unaddressed(blocks)) + " block(s) without id"@,
            backpressure: None,
        }
    }
}

/// Those of the blocks that are kept, in the order asked for.
pub open spec fn got(store: Bytes, ids: Seq<KvBlockIdView>) -> Seq<OpaqueBlockView>
    decreases ids.len(),
{
    if ids.len() == 0 {
        Seq::empty()
    } else {
        let before = got(store, ids.drop_last());
        match bytes::kept(store, ids.last()) {
            Some(data) => before.push(OpaqueBlockView { id: Some(ids.last()), data }),
            None => before,
        }
    }
}

/// Blocks' bytes by address.
pub struct KvPool {
    pub store: InMemoryByteStore,
}

impl View for KvPool {
    type V = Bytes;

    open spec fn view(&self) -> Bytes {
        self.store@
    }
}

impl Default for KvPool {
    fn default() -> (p: Self)
        ensures
            p@ == Map::<ByteKeyView, Seq<u8>>::empty(),
    {
        KvPool { store: InMemoryByteStore::new() }
    }
}

impl KvPool {
    /// Keeps blocks. Those without an address are counted and left out.
    pub fn put_blocks(&mut self, req: &PutBlocksRequest) -> (a: Ack)
        ensures
            final(self)@ == put_all(old(self)@, keys::views(req.blocks@)),
            a@ == put_answer(keys::views(req.blocks@)),
    {
        let ghost all = keys::views(req.blocks@);
        let mut skipped: usize = 0;
        let mut i: usize = 0;
        assert(all.take(0) =~= Seq::empty());
        while i < req.blocks.len()
            invariant
                i <= req.blocks@.len(),
                all == keys::views(req.blocks@),
                skipped <= i,
                skipped == unaddressed(all.take(i as int)),
                self@ == put_all(old(self)@, all.take(i as int)),
            decreases req.blocks.len() - i,
        {
            assert(all.take(i + 1).drop_last() =~= all.take(i as int));
            assert(all.take(i + 1).last() == req.blocks@[i as int]@);
            match &req.blocks[i].id {
                Some(id) => self.store.put(id, req.blocks[i].data.dup()),
                None => {
                    skipped += 1;
                },
            }
            i += 1;
        }
        assert(all.take(i as int) =~= all);
        if skipped == 0 {
            let a = Ack { ok: true, err: String::new(), backpressure: None };
            assert(a@.err =~= Seq::empty());
            a
        } else {
            let mut err = text("skipped ");
            err.append(decimal_text(skipped as u64).as_str());
            err.append(" block(s) without id");
            Ack { ok: false, err, backpressure: None }
        }
    }

    /// Hands out those of the blocks that are kept.
    pub fn get_blocks(&self, req: &GetBlocksRequest) -> (r: GetBlocksResponse)
        ensures
            keys::views(r.blocks@) == got(self@, keys::views(req.ids@)),
    {
        let ghost all = keys::views(req.ids@);
        let mut blocks: Vec<OpaqueBlock> = Vec::new();
        let mut i: usize = 0;
        assert(all.take(0) =~= Seq::empty());
        assert(keys::views(blocks@) =~= Seq::empty());
        while i < req.ids.len()
            invariant
                i <= req.ids@.len(),
                all == keys::views(req.ids@),
                keys::views(blocks@) == got(self@, all.take(i as int)),
            decreases req.ids.len() - i,
        {
            assert(all.take(i + 1).drop_last() =~= all.take(i as int));
            assert(all.take(i + 1).last() == req.ids@[i as int]@);
            let ghost before = keys::views(blocks@);
            match self.store.get(&req.ids[i]) {
                Some(data) => {
                    let block = OpaqueBlock { id: Some(req.ids[i].dup()), data };
                    let ghost v = block@;
                    blocks.push(block);
                    assert(keys::views(blocks@) =~= before.push(v));
                },
                None => {},
            }
            i += 1;
        }
        assert(all.take(i as int) =~= all);
        GetBlocksResponse { blocks }
    }
}

/// Neither block of a put has the address of the other.
pub open spec fn addressed_apart(a: OpaqueBlockView, b: OpaqueBlockView) -> bool {
    a.id is Some && b.id is Some ==> ByteKeyView::of(a.id->0) != ByteKeyView::of(b.id->0)
}

/// What was put is got back: a block that no later one of the put replaces is handed
/// out with the bytes that it came with.
pub proof fn put_blocks_are_got(store: Bytes, blocks: Seq<OpaqueBlockView>, i: int)
    requires
        0 <= i < blocks.len(),
        blocks[i].id is Some,
        forall|j: int| i < j < blocks.len() ==> addressed_apart(blocks[i], #[trigger] blocks[j]),
    ensures
        got(put_all(store, blocks), seq![blocks[i].id->0]) == seq![blocks[i]],
{
    lemma_put_stays(store, blocks, i);
    let id = blocks[i].id->0;
    assert(seq![id].drop_last() =~= Seq::empty());
    assert(got(put_all(store, blocks), seq![id].drop_last()) =~= Seq::empty());
    assert(got(put_all(store, blocks), seq![id]) =~= seq![blocks[i]]);
}

proof fn lemma_put_stays(store: Bytes, blocks: Seq<OpaqueBlockView>, i: int)
    requires
        0 <= i < blocks.len(),
        blocks[i].id is Some,
        forall|j: int| i < j < blocks.len() ==> addressed_apart(blocks[i], #[trigger] blocks[j]),
    ensures
        bytes::kept(put_all(store, blocks), blocks[i].id->0) == Some(blocks[i].data),
    decreases blocks.len(),
{
    if i < blocks.len() - 1 {
        assert(blocks.drop_last()[i] == blocks[i]);
        assert forall|j: int| i < j < blocks.drop_last().len() implies addressed_apart(
            blocks.drop_last()[i],
            #[trigger] blocks.drop_last()[j],
        ) by {
            assert(blocks.drop_last()[j] == blocks[j]);
        }
        lemma_put_stays(store, blocks.drop_last(), i);
        assert(addressed_apart(blocks[i], blocks[blocks.len() - 1]));
    }
}

/// Blocks asked for together are those asked for one after another.
pub proof fn got_comes_in_parts(store: Bytes, a: Seq<KvBlockIdView>, b: Seq<KvBlockIdView>)
    ensures
        got(store, a + b) == got(store, a) + got(store, b),
    decreases b.len(),
{
    if b.len() == 0 {
        assert(a + b =~= a);
        assert(got(store, a) + got(store, b) =~= got(store, a));
    } else {
        got_comes_in_parts(store, a, b.drop_last());
        assert((a + b).drop_last() =~= a + b.drop_last());
        assert((a + b).last() == b.last());
        assert(got(store, a + b) =~= got(store, a) + got(store, b));
    }
}

/// Of a single block that is asked for, the answer is the block where bytes are kept at its
/// address, and nothing where none are.
pub proof fn single_block_is_got(store: Bytes, id: KvBlockIdView)
    ensures
        match bytes::kept(store, id) {
            Some(data) => got(store, seq![id]) == seq![OpaqueBlockView { id: Some(id), data }],
            None => got(store, seq![id]) == Seq::<OpaqueBlockView>::empty(),
        },
{
    assert(seq![id].drop_last() =~= Seq::empty());
    assert(got(store, seq![id].drop_last()) =~= Seq::empty());
    assert(seq![id].last() == id);
    if bytes::kept(store, id) is Some {
        assert(got(store, seq![id]) =~= seq![
            OpaqueBlockView { id: Some(id), data: bytes::kept(store, id)->0 },
        ]);
    }
}

/// A put touches only what it names: an address that no block of it has keeps its bytes.
pub proof fn put_touches_only_its_addresses(
    store: Bytes,
    blocks: Seq<OpaqueBlockView>,
    id: KvBlockIdView,
)
    ensures
        (forall|i: int|
            0 <= i < blocks.len() && (#[trigger] blocks[i]).id is Some ==> {
                ||| blocks[i].id->0.model_id != id.model_id
                ||| blocks[i].id->0.revision != id.revision
                ||| blocks[i].id->0.pool_kind != id.pool_kind
                ||| blocks[i].id->0.block_hash != id.block_hash
            }) ==> bytes::kept(put_all(store, blocks), id) == bytes::kept(store, id),
    decreases blocks.len(),
{
    if blocks.len() > 0 && (forall|i: int|
        0 <= i < blocks.len() && (#[trigger] blocks[i]).id is Some ==> {
            ||| blocks[i].id->0.model_id != id.model_id
            ||| blocks[i].id->0.revision != id.revision
            ||| blocks[i].id->0.pool_kind != id.pool_kind
            ||| blocks[i].id->0.block_hash != id.block_hash
        }) {
        let init = blocks.drop_last();
        assert forall|i: int| 0 <= i < init.len() && (#[trigger] init[i]).id is Some implies {
            ||| init[i].id->0.model_id != id.model_id
            ||| init[i].id->0.revision != id.revision
            ||| init[i].id->0.pool_kind != id.pool_kind
            ||| init[i].id->0.block_hash != id.block_hash
        } by {
            assert(blocks[i] == init[i]);
        }
        put_touches_only_its_addresses(store, init, id);
        assert(blocks[blocks.len() - 1] == blocks.last());
    }
}

/// A put says yes exactly where every block has an address.
pub proof fn put_wants_addresses(blocks: Seq<OpaqueBlockView>)
    ensures
        put_answer(blocks).ok == forall|i: int|
            0 <= i < blocks.len() ==> (#[trigger] blocks[i]).id is Some,
{
    lemma_unaddressed(blocks);
}

proof fn lemma_unaddressed(blocks: Seq<OpaqueBlockView>)
    ensures
        unaddressed(blocks) == 0 <==> forall|i: int|
            0 <= i < blocks.len() ==> (#[trigger] blocks[i]).id is Some,
    decreases blocks.len(),
{
    if blocks.len() > 0 {
        let init = blocks.drop_last();
        lemma_unaddressed(init);
        assert(blocks[blocks.len() - 1] == blocks.last());
        if unaddressed(blocks) == 0 {
            assert forall|i: int| 0 <= i < blocks.len() implies (#[trigger] blocks[i]).id is Some by {
                if i < init.len() {
                    assert(init[i].id is Some);
                }
            }
        } else if forall|i: int| 0 <= i < blocks.len() ==> (#[trigger] blocks[i]).id is Some {
            assert forall|i: int| 0 <= i < init.len() implies (#[trigger] init[i]).id is Some by {
                assert(blocks[i] == init[i]);
            }
        }
    }
}

} // verus!
