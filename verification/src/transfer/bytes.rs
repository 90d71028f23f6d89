//! Bytes by content address.

use vstd::prelude::*;

use crate::base::keys::{Dup, Key};
use crate::base::table::Table;
use crate::proto::{KvBlockId, KvBlockIdView};

verus! {

/// What a block's bytes are found by. Who may see the block is no part of it.
pub struct ByteKey {
    pub model_id: String,
    pub revision: String,
    pub pool_kind: i32,
    pub block_hash: Vec<u8>,
}

/// What a `ByteKey` stands for.
#[verifier::ext_equal]
pub struct ByteKeyView {
    pub model_id: Seq<char>,
    pub revision: Seq<char>,
    pub pool_kind: i32,
    pub block_hash: Seq<u8>,
}

impl View for ByteKey {
    type V = ByteKeyView;

    open spec fn view(&self) -> ByteKeyView {
        ByteKeyView {
            model_id: self.model_id@,
            revision: self.revision@,
            pool_kind: self.pool_kind,
            block_hash: self.block_hash@,
        }
    }
}

impl Dup for ByteKey {
    fn dup(&self) -> (copy: Self) {
        ByteKey {
            model_id: self.model_id.dup(),
            revision: self.revision.dup(),
            pool_kind: self.pool_kind,
            block_hash: self.block_hash.dup(),
        }
    }
}

impl Key for ByteKey {
    fn same(&self, other: &Self) -> (same: bool) {
        self.pool_kind == other.pool_kind && self.model_id.same(&other.model_id)
            && self.revision.same(&other.revision) && self.block_hash.same(&other.block_hash)
    }
}

impl ByteKeyView {
    /// The key of an address.
    pub open spec fn of(id: KvBlockIdView) -> ByteKeyView {
        ByteKeyView {
            model_id: id.model_id,
            revision: id.revision,
            pool_kind: id.pool_kind,
            block_hash: id.block_hash,
        }
    }
}

/// Bytes by key.
pub type Bytes = Map<ByteKeyView, Seq<u8>>;

/// The bytes of an address, if they are kept.
pub open spec fn kept(store: Bytes, id: KvBlockIdView) -> Option<Seq<u8>> {
    if store.contains_key(ByteKeyView::of(id)) {
        Some(store[ByteKeyView::of(id)])
    } else {
        None
    }
}

fn key(id: &KvBlockId) -> (k: ByteKey)
    ensures
        k@ == ByteKeyView::of(id@),
{
    ByteKey {
        model_id: id.model_id.dup(),
        revision: id.revision.dup(),
        pool_kind: id.pool_kind,
        block_hash: id.block_hash.dup(),
    }
}

/// Bytes by content address, in memory.
pub struct InMemoryByteStore {
    pub data: Table<ByteKey, Vec<u8>>,
}

impl View for InMemoryByteStore {
    type V = Bytes;

    open spec fn view(&self) -> Bytes {
        self.data@
    }
}

impl Default for InMemoryByteStore {
    fn default() -> (s: Self)
        ensures
            s@ == Map::<ByteKeyView, Seq<u8>>::empty(),
    {
        InMemoryByteStore::new()
    }
}

impl InMemoryByteStore {
    /// A store without bytes.
    pub fn new() -> (s: Self)
        ensures
            s@ == Map::<ByteKeyView, Seq<u8>>::empty(),
    {
        InMemoryByteStore { data: Table::new() }
    }

    /// Keeps bytes, in place of what was kept before.
    pub fn put(&mut self, id: &KvBlockId, data: Vec<u8>)
        ensures
            final(self)@ == old(self)@.insert(ByteKeyView::of(id@), data@),
    {
        let _ = self.data.insert(key(id), data);
    }

    /// The bytes of a block, if they are kept.
    pub fn get(&self, id: &KvBlockId) -> (data: Option<Vec<u8>>)
        ensures
            match data {
                Some(d) => kept(self@, id@) == Some(d@),
                None => kept(self@, id@) is None,
            },
    {
        match self.data.get(&key(id)) {
            Some(d) => Some(d.dup()),
            None => None,
        }
    }

    /// Tells whether bytes are kept for a block.
    pub fn contains(&self, id: &KvBlockId) -> (b: bool)
        ensures
            b == (kept(self@, id@) is Some),
    {
        self.data.contains_key(&key(id))
    }

    /// The number of blocks.
    pub fn len(&self) -> (n: usize)
        ensures
            n == self@.len(),
    {
        self.data.len()
    }

    /// Tells whether nothing is kept.
    pub fn is_empty(&self) -> (b: bool)
        ensures
            b == (self@.len() == 0),
    {
        self.data.len() == 0
    }
}

/// What was put is what is got, and other blocks stay as they were.
pub proof fn put_is_got(store: Bytes, id: KvBlockIdView, data: Seq<u8>, other: KvBlockIdView)
    ensures
        kept(store.insert(ByteKeyView::of(id), data), id) == Some(data),
        ByteKeyView::of(other) != ByteKeyView::of(id) ==> kept(
            store.insert(ByteKeyView::of(id), data),
            other,
        ) == kept(store, other),
{
}

/// Who may see a block does not matter to where its bytes are.
pub proof fn scope_is_no_address(store: Bytes, id: KvBlockIdView, scope: Seq<char>)
    ensures
        kept(store, KvBlockIdView { scope, ..id }) == kept(store, id),
{
}

/// Bytes are kept apart by all of an address but its scope: those of another model, revision,
/// pool or hash are as they were.
pub proof fn addresses_keep_bytes_apart(
    store: Bytes,
    id: KvBlockIdView,
    data: Seq<u8>,
    other: KvBlockIdView,
)
    requires
        other.model_id != id.model_id || other.revision != id.revision || other.pool_kind
            != id.pool_kind || other.block_hash != id.block_hash,
    ensures
        kept(store.insert(ByteKeyView::of(id), data), other) == kept(store, other),
{
}

} // verus!
