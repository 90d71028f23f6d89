//! From flat content hashes to positional lineage: each block of a prefix is
//! named by its position, its own sequence hash and a fragment of its parent's.

use dynamo_tokens::PositionalLineageHash;
use vstd::prelude::*;
use xxhash_rust::xxh3::xxh3_64;

use crate::base::keys;
use crate::base::keys::{Dup, Key};

verus! {

/// A lineage has fewer positions than this.
pub const MAX_CHAIN: usize = 16_777_216;

/// The 64-bit XXH3 hash of a byte string.
pub uninterp spec fn xxh3_of(bytes: Seq<u8>) -> u64;

/// The sequence hash of a block after one with a given sequence hash.
pub uninterp spec fn next_sequence_hash(parent: u64, block_hash: u64) -> u64;

/// A block's place in its lineage.
#[derive(Debug, Clone, Copy, PartialEq, Eq, Structural)]
pub struct SequenceHash {
    pub position: u64,
    pub current: u64,
    pub parent_fragment: u64,
}

impl View for SequenceHash {
    type V = SequenceHash;

    open spec fn view(&self) -> SequenceHash {
        *self
    }
}

impl Dup for SequenceHash {
    fn dup(&self) -> (copy: Self) {
        *self
    }
}

impl Key for SequenceHash {
    fn same(&self, other: &Self) -> (same: bool) {
        *self == *other
    }
}

/// The bits of a parent's sequence hash that a block at `position` keeps: 54, 46
/// or 38 of them, fewer as positions need more room.
pub open spec fn spec_fragment_mask(position: u64) -> u64 {
    if position < 256 {
        0x3f_ffff_ffff_ffff
    } else if position < 65536 {
        0x3fff_ffff_ffff
    } else {
        0x3f_ffff_ffff
    }
}

fn fragment_mask(position: u64) -> (mask: u64)
    ensures
        mask == spec_fragment_mask(position),
{
    if position < 256 {
        0x3f_ffff_ffff_ffff
    } else if position < 65536 {
        0x3fff_ffff_ffff
    } else {
        0x3f_ffff_ffff
    }
}

impl SequenceHash {
    /// This block's parent stands one position before it and matches the fragment.
    pub open spec fn follows(self, parent: SequenceHash) -> bool {
        &&& parent.position + 1 == self.position
        &&& self.parent_fragment == parent.current & spec_fragment_mask(self.position)
    }

    /// The first block of a lineage.
    pub open spec fn spec_root(block_hash: u64) -> SequenceHash {
        SequenceHash { position: 0, current: block_hash, parent_fragment: 0 }
    }

    /// The block after this one.
    pub open spec fn spec_extend(self, block_hash: u64) -> SequenceHash {
        SequenceHash {
            position: (self.position + 1) as u64,
            current: next_sequence_hash(self.current, block_hash),
            parent_fragment: self.current & spec_fragment_mask((self.position + 1) as u64),
        }
    }

    /// Tells whether this block's parent is the given one.
    pub fn is_child_of(&self, parent: &SequenceHash) -> (b: bool)
        ensures
            b == self.follows(*parent),
    {
        parent.position < self.position && self.position - parent.position == 1
            && self.parent_fragment == parent.current & fragment_mask(self.position)
    }
}

/// `xxhash_rust::xxh3::xxh3_64`: the hash with the default secret and seed zero,
/// a function of the bytes alone.
#[verifier::external_body]
fn xxh3(bytes: &[u8]) -> (h: u64)
    ensures
        h == xxh3_of(bytes@),
{
    xxh3_64(bytes)
}

/// `dynamo_tokens::PositionalLineageHash::root`: position zero, the block's own
/// hash as its sequence hash, and no parent.
#[verifier::external_body]
fn lineage_root(block_hash: u64) -> (s: SequenceHash)
    ensures
        s.position == 0,
        s.current == block_hash,
        s.parent_fragment == 0,
{
    let p = PositionalLineageHash::root(block_hash);
    SequenceHash {
        position: p.position(),
        current: p.current_sequence_hash(),
        parent_fragment: p.parent_hash_fragment(),
    }
}

/// `dynamo_tokens::PositionalLineageHash::extend`: the next position, the chained
/// sequence hash of parent and block, and the parent's hash cut to the fragment
/// that this position keeps. It panics from position 2^24 on.
#[verifier::external_body]
fn lineage_extend(parent: &SequenceHash, block_hash: u64) -> (s: SequenceHash)
    requires
        parent.position + 1 < 16_777_216,
    ensures
        s.position == parent.position + 1,
        s.current == next_sequence_hash(parent.current, block_hash),
        s.parent_fragment == parent.current & spec_fragment_mask(s.position),
{
    let p = PositionalLineageHash::new(parent.current, None, parent.position).extend(block_hash);
    SequenceHash {
        position: p.position(),
        current: p.current_sequence_hash(),
        parent_fragment: p.parent_hash_fragment(),
    }
}

/// Hashes a flat content hash to a block hash.
pub fn flat_to_block_hash(flat: &[u8]) -> (h: u64)
    ensures
        h == xxh3_of(flat@),
{
    xxh3(flat)
}

/// The lineage of the last block of a chain of flat hashes.
pub open spec fn lineage_of(chain: Seq<Seq<u8>>) -> SequenceHash
    decreases chain.len(),
{
    if chain.len() <= 1 {
        SequenceHash::spec_root(xxh3_of(chain[0]))
    } else {
        lineage_of(chain.drop_last()).spec_extend(xxh3_of(chain.last()))
    }
}

/// The lineage of every block of an ordered prefix.
pub open spec fn lineage(prefix: Seq<Seq<u8>>) -> Seq<SequenceHash> {
    Seq::new(prefix.len(), |i: int| lineage_of(prefix.take(i + 1)))
}

/// A block's position is its index in the prefix.
pub proof fn positions_are_indices(chain: Seq<Seq<u8>>)
    requires
        0 < chain.len() <= 16_777_216,
    ensures
        lineage_of(chain).position == chain.len() - 1,
    decreases chain.len(),
{
    if chain.len() > 1 {
        positions_are_indices(chain.drop_last());
    }
}

/// Each block of a prefix follows the one before it.
pub proof fn lineage_links(prefix: Seq<Seq<u8>>, i: int)
    requires
        0 < i < prefix.len() <= 16_777_216,
    ensures
        lineage(prefix)[i].follows(lineage(prefix)[i - 1]),
{
    let chain = prefix.take(i + 1);
    assert(chain.drop_last() =~= prefix.take(i));
    positions_are_indices(prefix.take(i));
}

/// A longer prefix gives its shared blocks the same lineage.
pub proof fn lineage_is_prefix_stable(prefix: Seq<Seq<u8>>, n: int, i: int)
    requires
        0 <= i < n <= prefix.len(),
    ensures
        lineage(prefix.take(n))[i] == lineage(prefix)[i],
{
    assert(prefix.take(n).take(i + 1) =~= prefix.take(i + 1));
}

/// Builds the lineage of an ordered prefix of flat hashes: the first is the root,
/// each next extends the one before it.
pub fn lineage_from_prefix(prefix_hashes: &[Vec<u8>]) -> (out: Vec<SequenceHash>)
    requires
        prefix_hashes@.len() <= MAX_CHAIN,
    ensures
        out@ == lineage(keys::views(prefix_hashes@)),
{
    let ghost prefix = keys::views(prefix_hashes@);
    let mut out: Vec<SequenceHash> = Vec::with_capacity(prefix_hashes.len());
    let mut i: usize = 0;
    while i < prefix_hashes.len()
        invariant
            i <= prefix_hashes@.len() == prefix.len() <= MAX_CHAIN,
            prefix == keys::views(prefix_hashes@),
            out@ == lineage(prefix).take(i as int),
        decreases prefix_hashes@.len() - i,
    {
        let bh: u64 = flat_to_block_hash(prefix_hashes[i].as_slice());
        assert(prefix[i as int] == prefix_hashes@[i as int]@);
        let s = if i == 0 {
            assert(prefix.take(1)[0] == prefix[0]);
            lineage_root(bh)
        } else {
            proof {
                positions_are_indices(prefix.take(i as int));
                assert(prefix.take(i + 1).drop_last() =~= prefix.take(i as int));
                assert(out@[i - 1] == lineage(prefix)[i - 1]);
            }
            lineage_extend(&out[i - 1], bh)
        };
        assert(s == lineage(prefix)[i as int]);
        out.push(s);
        assert(lineage(prefix).take(i + 1) =~= lineage(prefix).take(i as int).push(s));
        i += 1;
    }
    assert(lineage(prefix).take(i as int) =~= lineage(prefix));
    out
}

} // verus!
