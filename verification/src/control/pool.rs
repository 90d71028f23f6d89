//! One pool of a model: its blocks, who references them, which of them may make
//! room, and how often they were hit.

use vstd::prelude::*;
use vstd::string::*;

use crate::base::keys;
use crate::base::keys::{Dup, Key};
use crate::base::set::KeySet;
use crate::base::table::Table;
use crate::base::text;
use crate::base::text::{joined, signed_text, text};
use crate::control::hash_chain::{SequenceHash, MAX_CHAIN};
use crate::control::inactive;
use crate::control::inactive::{
    FrequencyTracker, FrequencyView, InactiveIndex, InactiveView, Node,
};
use crate::control::view;
use crate::proto::{
    BlockMeta, BlockMetaView, KvBlockId, KvBlockIdView, Location, LocationView, PoolKind, RefKind,
};

verus! {

/// The pool that a number on the wire names: zero is the target pool, and other
/// numbers than those of the two pools are refused.
pub open spec fn pool_kind_of(raw: i32) -> Result<i32, Seq<char>> {
    if raw == 0 {
        Ok(PoolKind::Target.spec_number())
    } else if raw == PoolKind::Target.spec_number() || raw == PoolKind::Draft.spec_number() {
        Ok(raw)
    } else {
        Err("unsupported pool_kind "@ + text::signed(raw as int))
    }
}

/// Reads the pool that a number on the wire names.
pub fn resolve_pool_kind(raw: i32) -> (r: Result<i32, String>)
    ensures
        keys::told(r) == pool_kind_of(raw),
{
    if raw == 0 {
        return Ok(PoolKind::Target.number());
    }
    if raw == PoolKind::Target.number() || raw == PoolKind::Draft.number() {
        return Ok(raw);
    }
    Err(joined("unsupported pool_kind ", signed_text(raw as i64).as_str()))
}

/// The name of an accounted kind of reference.
pub open spec fn ref_kind_name(kind: RefKind) -> Seq<char> {
    match kind {
        RefKind::Unspecified => "REF_UNSPECIFIED"@,
        RefKind::Request => "REQUEST"@,
        RefKind::Writeback => "WRITEBACK"@,
        RefKind::InFlight => "IN_FLIGHT"@,
    }
}

/// Names a kind of reference.
pub fn ref_kind_text(kind: RefKind) -> (r: &'static str)
    ensures
        r@ == ref_kind_name(kind),
{
    match kind {
        RefKind::Unspecified => "REF_UNSPECIFIED",
        RefKind::Request => "REQUEST",
        RefKind::Writeback => "WRITEBACK",
        RefKind::InFlight => "IN_FLIGHT",
    }
}

/// The refusal of a kind that is known but not accounted.
pub open spec fn unaccounted(kind: RefKind) -> Seq<char> {
    "RefDelta: unsupported ref_kind "@ + ref_kind_name(kind) + " (want REQUEST/WRITEBACK)"@
}

/// The kind that a number on the wire names: references of requests and of
/// writebacks are accounted, every other number is refused.
pub open spec fn ref_kind_of(raw: i32) -> Result<RefKind, Seq<char>> {
    if raw == RefKind::Request.spec_number() {
        Ok(RefKind::Request)
    } else if raw == RefKind::Writeback.spec_number() {
        Ok(RefKind::Writeback)
    } else if raw == RefKind::Unspecified.spec_number() {
        Err(unaccounted(RefKind::Unspecified))
    } else if raw == RefKind::InFlight.spec_number() {
        Err(unaccounted(RefKind::InFlight))
    } else {
        Err("RefDelta: unknown ref_kind "@ + text::signed(raw as int))
    }
}

fn unaccounted_text(kind: RefKind) -> (r: String)
    ensures
        r@ == unaccounted(kind),
{
    let mut r = joined("RefDelta: unsupported ref_kind ", ref_kind_text(kind));
    r.append(" (want REQUEST/WRITEBACK)");
    r
}

/// Reads the kind that a number on the wire names.
pub fn resolve_ref_kind(raw: i32) -> (r: Result<RefKind, String>)
    ensures
        keys::told(r) == ref_kind_of(raw),
{
    if raw == RefKind::Request.number() {
        Ok(RefKind::Request)
    } else if raw == RefKind::Writeback.number() {
        Ok(RefKind::Writeback)
    } else if raw == RefKind::Unspecified.number() {
        Err(unaccounted_text(RefKind::Unspecified))
    } else if raw == RefKind::InFlight.number() {
        Err(unaccounted_text(RefKind::InFlight))
    } else {
        Err(joined("RefDelta: unknown ref_kind ", signed_text(raw as i64).as_str()))
    }
}

/// References to a block by kind. A block with any reference stays.
#[derive(Debug, Clone, Copy, PartialEq, Eq, Structural, Default)]
pub struct RefAccounts {
    pub request: i64,
    pub writeback: i64,
}

impl View for RefAccounts {
    type V = RefAccounts;

    open spec fn view(&self) -> RefAccounts {
        *self
    }
}

impl Dup for RefAccounts {
    fn dup(&self) -> (copy: Self) {
        *self
    }
}

impl RefAccounts {
    /// No reference.
    pub open spec fn none() -> RefAccounts {
        RefAccounts { request: 0, writeback: 0 }
    }

    /// Counts are never negative.
    pub open spec fn wf(self) -> bool {
        self.request >= 0 && self.writeback >= 0
    }

    /// All references together.
    pub open spec fn total(self) -> int {
        self.request + self.writeback
    }

    /// The references of one kind.
    pub open spec fn of(self, kind: RefKind) -> i64 {
        match kind {
            RefKind::Writeback => self.writeback,
            _ => self.request,
        }
    }

    /// The accounts with the references of one kind set.
    pub open spec fn with(self, kind: RefKind, n: i64) -> RefAccounts {
        match kind {
            RefKind::Writeback => RefAccounts { writeback: n, ..self },
            _ => RefAccounts { request: n, ..self },
        }
    }

    /// Tells whether there is any reference.
    pub fn held(&self) -> (b: bool)
        requires
            self.wf(),
        ensures
            b == (self.total() > 0),
    {
        self.request > 0 || self.writeback > 0
    }

    /// The references of one kind.
    pub fn bucket(&self, kind: RefKind) -> (n: i64)
        ensures
            n == self.of(kind),
    {
        match kind {
            RefKind::Writeback => self.writeback,
            _ => self.request,
        }
    }

    /// The accounts with the references of one kind set.
    pub fn set(&self, kind: RefKind, n: i64) -> (r: RefAccounts)
        ensures
            r == self.with(kind, n),
    {
        match kind {
            RefKind::Writeback => RefAccounts { request: self.request, writeback: n },
            _ => RefAccounts { request: n, writeback: self.writeback },
        }
    }
}

/// A block of a pool.
pub struct Entry {
    pub seq_hash: SequenceHash,
    pub meta: BlockMeta,
    pub block_id: u64,
    /// The flat hashes from the root through this block.
    pub prefix_chain: Vec<Vec<u8>>,
}

/// What an entry stands for.
#[verifier::ext_equal]
pub struct EntryView {
    pub seq: SequenceHash,
    pub meta: BlockMetaView,
    pub block_id: u64,
    pub chain: Seq<Seq<u8>>,
}

impl View for Entry {
    type V = EntryView;

    open spec fn view(&self) -> EntryView {
        EntryView {
            seq: self.seq_hash,
            meta: self.meta@,
            block_id: self.block_id,
            chain: keys::views(self.prefix_chain@),
        }
    }
}

/// A block for which a placement on a node was ordered.
pub struct Mark {
    pub flat: Vec<u8>,
    pub node_id: String,
}

impl View for Mark {
    type V = (Seq<u8>, Seq<char>);

    open spec fn view(&self) -> (Seq<u8>, Seq<char>) {
        (self.flat@, self.node_id@)
    }
}

impl Dup for Mark {
    fn dup(&self) -> (copy: Self) {
        Mark { flat: self.flat.dup(), node_id: self.node_id.dup() }
    }
}

impl Key for Mark {
    fn same(&self, other: &Self) -> (same: bool) {
        self.flat.same(&other.flat) && self.node_id.same(&other.node_id)
    }
}

/// The marks of other blocks.
pub open spec fn marks_without_block(marks: Set<(Seq<u8>, Seq<char>)>, flat: Seq<u8>) -> Set<
    (Seq<u8>, Seq<char>),
> {
    marks.filter(|m: (Seq<u8>, Seq<char>)| m.0 != flat)
}

/// The marks for other nodes.
pub open spec fn marks_without_node(marks: Set<(Seq<u8>, Seq<char>)>, node_id: Seq<char>) -> Set<
    (Seq<u8>, Seq<char>),
> {
    marks.filter(|m: (Seq<u8>, Seq<char>)| m.1 != node_id)
}

/// The address of a block, made up where its record has none.
pub open spec fn id_or(
    id: Option<KvBlockIdView>,
    model_id: Seq<char>,
    revision: Seq<char>,
    pool_kind: i32,
    flat: Seq<u8>,
) -> KvBlockIdView {
    match id {
        Some(id) => id,
        None => KvBlockIdView {
            model_id,
            revision,
            pool_kind,
            block_hash: flat,
            scope: "public"@,
        },
    }
}

/// The address of a block in the public scope.
pub fn public_id(model_id: &str, revision: &str, pool_kind: i32, flat: &Vec<u8>) -> (r: KvBlockId)
    ensures
        r@ == id_or(None, model_id@, revision@, pool_kind, flat@),
{
    KvBlockId {
        model_id: text(model_id),
        revision: text(revision),
        pool_kind,
        block_hash: flat.dup(),
        scope: text("public"),
    }
}

/// The address of a block, made up where its record has none.
pub fn id_or_public(
    id: &Option<KvBlockId>,
    model_id: &str,
    revision: &str,
    pool_kind: i32,
    flat: &Vec<u8>,
) -> (r: KvBlockId)
    ensures
        r@ == id_or(keys::opt(*id), model_id@, revision@, pool_kind, flat@),
{
    match id {
        Some(id) => id.dup(),
        None => public_id(model_id, revision, pool_kind, flat),
    }
}

/// Locations with the node filled in where it is missing.
pub open spec fn located(locations: Seq<LocationView>, node_id: Seq<char>) -> Seq<LocationView> {
    locations.map_values(
        |l: LocationView|
            if l.node_id.len() == 0 {
                LocationView { node_id, ..l }
            } else {
                l
            },
    )
}

/// A record as it is stored: its pool is named, and so are the nodes of its
/// locations.
pub open spec fn settled(meta: BlockMetaView, pool_kind: i32, node_id: Seq<char>) -> BlockMetaView {
    BlockMetaView {
        id: match meta.id {
            Some(id) => Some(KvBlockIdView { pool_kind, ..id }),
            None => None,
        },
        locations: located(meta.locations, node_id),
        ..meta
    }
}

/// What a pool stands for.
#[verifier::ext_equal]
pub struct PoolView {
    pub by_flat: Map<Seq<u8>, EntryView>,
    pub seq_to_flat: Map<SequenceHash, Seq<u8>>,
    pub inactive: InactiveView,
    pub cap: nat,
    pub refs: Map<SequenceHash, RefAccounts>,
    pub hits: Map<Seq<u8>, Map<Seq<char>, u32>>,
    pub marks: Set<(Seq<u8>, Seq<char>)>,
    pub freq: FrequencyView,
    pub next_block_id: u64,
}

impl PoolView {
    /// A pool without blocks.
    pub open spec fn fresh(cap: nat) -> PoolView {
        PoolView {
            by_flat: Map::empty(),
            seq_to_flat: Map::empty(),
            inactive: InactiveView::empty(),
            cap,
            refs: Map::empty(),
            hits: Map::empty(),
            marks: Set::empty(),
            freq: FrequencyView::none(),
            next_block_id: 1,
        }
    }

    /// The index is sound and within its capacity, no count is negative, and no
    /// chain is too long.
    pub open spec fn wf(self) -> bool {
        &&& self.inactive.wf()
        &&& self.inactive.nodes.len() <= self.cap
        &&& forall|f: Seq<u8>| #[trigger]
            self.by_flat.contains_key(f) ==> self.by_flat[f].chain.len() <= MAX_CHAIN
        &&& forall|s: SequenceHash| #[trigger] self.refs.contains_key(s) ==> self.refs[s].wf()
    }

    /// The references to a block.
    pub open spec fn accounts_of(self, seq: SequenceHash) -> RefAccounts {
        if self.refs.contains_key(seq) {
            self.refs[seq]
        } else {
            RefAccounts::none()
        }
    }

    /// Some reference holds the block.
    pub open spec fn holds(self, seq: SequenceHash) -> bool {
        self.accounts_of(seq).total() > 0
    }

    /// The hits of a block on a node.
    pub open spec fn hits_on(self, flat: Seq<u8>, node_id: Seq<char>) -> u32 {
        if self.hits.contains_key(flat) && self.hits[flat].contains_key(node_id) {
            self.hits[flat][node_id]
        } else {
            0
        }
    }

    /// A block is gone, with its hits and marks.
    pub open spec fn forgotten(self, flat: Seq<u8>) -> PoolView {
        PoolView {
            by_flat: self.by_flat.remove(flat),
            hits: self.hits.remove(flat),
            marks: marks_without_block(self.marks, flat),
            ..self
        }
    }

    /// A block that made room is gone, unless something holds it.
    pub open spec fn dropped_one(self, node: Node) -> (PoolView, Seq<Seq<u8>>) {
        if self.holds(node.seq) {
            (self, Seq::empty())
        } else {
            let p = PoolView { refs: self.refs.remove(node.seq), ..self };
            if self.seq_to_flat.contains_key(node.seq) {
                let flat = self.seq_to_flat[node.seq];
                (
                    PoolView {
                        seq_to_flat: self.seq_to_flat.remove(node.seq),
                        ..p
                    }.forgotten(flat),
                    seq![flat],
                )
            } else {
                (p, Seq::empty())
            }
        }
    }

    /// The blocks that made room are gone; with the flat hashes of those that were
    /// there.
    pub open spec fn dropped(self, victims: Seq<Node>) -> (PoolView, Seq<Seq<u8>>)
        decreases victims.len(),
    {
        if victims.len() == 0 {
            (self, Seq::empty())
        } else {
            let (p, gone) = self.dropped(victims.drop_last());
            let (q, more) = p.dropped_one(victims.last());
            (q, gone + more)
        }
    }

    /// Up to `n` blocks without references make room.
    pub open spec fn evicted(self, n: nat) -> (PoolView, Seq<Seq<u8>>) {
        let (inactive, victims) = self.inactive.allocated(n, self.freq);
        PoolView { inactive, ..self }.dropped(victims)
    }

    /// A block may make room from now on, where the index has space for it.
    pub open spec fn entered(self, seq: SequenceHash, block_id: u64) -> PoolView {
        if !inactive::holds(self.inactive.nodes, seq) && self.inactive.nodes.len() < self.cap {
            PoolView { inactive: self.inactive.inserted(seq, block_id, self.freq), ..self }
        } else {
            self
        }
    }

    /// A block may not make room any more.
    pub open spec fn left(self, seq: SequenceHash) -> PoolView {
        PoolView { inactive: self.inactive.removed(seq, self.freq), ..self }
    }

    /// The references to a block are set: the last one that goes lets it make
    /// room, the first one that comes keeps it.
    pub open spec fn accounted(self, seq: SequenceHash, block_id: u64, next: RefAccounts) -> PoolView {
        let p = PoolView { refs: self.refs.insert(seq, next), ..self };
        if self.holds(seq) && next.total() == 0 {
            p.entered(seq, block_id)
        } else if !self.holds(seq) && next.total() > 0 {
            p.left(seq)
        } else {
            p
        }
    }

    /// The block id that a flat hash has or gets.
    pub open spec fn id_for(self, flat: Seq<u8>) -> u64 {
        if self.by_flat.contains_key(flat) {
            self.by_flat[flat].block_id
        } else {
            self.next_block_id
        }
    }

    /// A record is stored under its flat hash; a new one takes the next block id.
    pub open spec fn stored(
        self,
        flat: Seq<u8>,
        seq: SequenceHash,
        meta: BlockMetaView,
        chain: Seq<Seq<u8>>,
    ) -> PoolView {
        PoolView {
            by_flat: self.by_flat.insert(
                flat,
                EntryView { seq, meta, block_id: self.id_for(flat), chain },
            ),
            seq_to_flat: self.seq_to_flat.insert(seq, flat),
            next_block_id: if self.by_flat.contains_key(flat) || self.next_block_id == u64::MAX {
                self.next_block_id
            } else {
                (self.next_block_id + 1) as u64
            },
            ..self
        }
    }

    /// A block leaves for good.
    pub open spec fn discarded(self, flat: Seq<u8>) -> PoolView {
        let seq = self.by_flat[flat].seq;
        PoolView {
            refs: self.refs.remove(seq),
            seq_to_flat: self.seq_to_flat.remove(seq),
            ..self
        }.left(seq).forgotten(flat)
    }

    /// The record of a block is replaced.
    pub open spec fn updated(self, flat: Seq<u8>, meta: BlockMetaView) -> PoolView {
        PoolView {
            by_flat: self.by_flat.insert(flat, EntryView { meta, ..self.by_flat[flat] }),
            ..self
        }
    }
}

/// The pool as stored.
pub struct Pool {
    pub by_flat: Table<Vec<u8>, Entry>,
    pub seq_to_flat: Table<SequenceHash, Vec<u8>>,
    pub inactive: InactiveIndex,
    pub inactive_cap: usize,
    pub refs: Table<SequenceHash, RefAccounts>,
    pub hits: Table<Vec<u8>, Table<String, u32>>,
    pub marks: KeySet<Mark>,
    pub freq: FrequencyTracker,
    pub next_block_id: u64,
}

impl View for Pool {
    type V = PoolView;

    open spec fn view(&self) -> PoolView {
        PoolView {
            by_flat: self.by_flat@,
            seq_to_flat: self.seq_to_flat@,
            inactive: self.inactive@,
            cap: self.inactive_cap as nat,
            refs: self.refs@,
            hits: self.hits@,
            marks: self.marks@,
            freq: self.freq@,
            next_block_id: self.next_block_id,
        }
    }
}

/// Drops the marks of a block.
pub fn forget_block(marks: &KeySet<Mark>, flat: &Vec<u8>) -> (r: KeySet<Mark>)
    ensures
        r@ == marks_without_block(marks@, flat@),
{
    let all = marks.members();
    let ghost seen = keys::views(all@);
    let mut r: KeySet<Mark> = KeySet::new();
    let mut i: usize = 0;
    assert(r@ =~= marks_without_block(seen.take(0).to_set(), flat@));
    while i < all.len()
        invariant
            i <= all@.len(),
            seen == keys::views(all@),
            r@ == marks_without_block(seen.take(i as int).to_set(), flat@),
        decreases all@.len() - i,
    {
        let m = &all[i];
        let ghost before = r@;
        assert(seen.take(i + 1) =~= seen.take(i as int).push(m@));
        if !m.flat.same(flat) {
            r.insert(m.dup());
        }
        proof {
            lemma_push_to_set(seen.take(i as int), m@);
            assert(r@ =~= marks_without_block(seen.take(i + 1).to_set(), flat@));
        }
        i += 1;
    }
    assert(seen.take(i as int) =~= seen);
    r
}

/// Drops the marks for a node.
pub fn forget_node(marks: &KeySet<Mark>, node_id: &String) -> (r: KeySet<Mark>)
    ensures
        r@ == marks_without_node(marks@, node_id@),
{
    let all = marks.members();
    let ghost seen = keys::views(all@);
    let mut r: KeySet<Mark> = KeySet::new();
    let mut i: usize = 0;
    assert(r@ =~= marks_without_node(seen.take(0).to_set(), node_id@));
    while i < all.len()
        invariant
            i <= all@.len(),
            seen == keys::views(all@),
            r@ == marks_without_node(seen.take(i as int).to_set(), node_id@),
        decreases all@.len() - i,
    {
        let m = &all[i];
        assert(seen.take(i + 1) =~= seen.take(i as int).push(m@));
        if !m.node_id.same(node_id) {
            r.insert(m.dup());
        }
        proof {
            lemma_push_to_set(seen.take(i as int), m@);
            assert(r@ =~= marks_without_node(seen.take(i + 1).to_set(), node_id@));
        }
        i += 1;
    }
    assert(seen.take(i as int) =~= seen);
    r
}

/// One more value in a sequence is one more in its set.
pub proof fn lemma_push_to_set<A>(s: Seq<A>, x: A)
    ensures
        s.push(x).to_set() == s.to_set().insert(x),
{
    let t = s.push(x);
    assert forall|v: A| t.to_set().contains(v) == s.to_set().insert(x).contains(v) by {
        if s.contains(v) {
            let i = choose|i: int| 0 <= i < s.len() && s[i] == v;
            assert(t[i] == v);
        }
        if v == x {
            assert(t[s.len() as int] == x);
        }
        if t.contains(v) && v != x {
            let i = choose|i: int| 0 <= i < t.len() && t[i] == v;
            assert(s[i] == v);
        }
    }
    assert(t.to_set() =~= s.to_set().insert(x));
}

impl Pool {
    /// A pool without blocks.
    pub fn new(inactive_cap: usize) -> (p: Self)
        ensures
            p@ == PoolView::fresh(
                if inactive_cap == 0 {
                    1
                } else {
                    inactive_cap as nat
                },
            ),
            p@.wf(),
    {
        Pool {
            by_flat: Table::new(),
            seq_to_flat: Table::new(),
            inactive: InactiveIndex::new(),
            inactive_cap: if inactive_cap == 0 {
                1
            } else {
                inactive_cap
            },
            refs: Table::new(),
            hits: Table::new(),
            marks: KeySet::new(),
            freq: FrequencyTracker::new(),
            next_block_id: 1,
        }
    }

    /// The references to a block.
    pub fn accounts(&self, seq: &SequenceHash) -> (r: RefAccounts)
        ensures
            r == self@.accounts_of(*seq),
    {
        match self.refs.get(seq) {
            Some(a) => *a,
            None => RefAccounts { request: 0, writeback: 0 },
        }
    }

    /// Tells whether some reference holds the block.
    pub fn held(&self, seq: &SequenceHash) -> (b: bool)
        requires
            self@.wf(),
        ensures
            b == self@.holds(*seq),
    {
        self.accounts(seq).held()
    }

    /// The hits of a block on a node.
    pub fn hits_on(&self, flat: &Vec<u8>, node_id: &String) -> (n: u32)
        ensures
            n == self@.hits_on(flat@, node_id@),
    {
        match self.hits.get(flat) {
            Some(m) => match m.get(node_id) {
                Some(n) => *n,
                None => 0,
            },
            None => 0,
        }
    }

    /// Forgets a block, with its hits and marks.
    pub(crate) fn forget(&mut self, flat: &Vec<u8>)
        requires
            old(self)@.wf(),
        ensures
            final(self)@ == old(self)@.forgotten(flat@),
            final(self)@.wf(),
    {
        self.by_flat.remove(flat);
        self.hits.remove(flat);
        self.marks = forget_block(&self.marks, flat);
        assert(self@ =~= old(self)@.forgotten(flat@));
        assert(self@.refs == old(self)@.refs);
        assert forall|f: Seq<u8>| #[trigger] self@.by_flat.contains_key(f) implies self@.by_flat[f].chain.len()
            <= MAX_CHAIN by {
            assert(old(self)@.by_flat.contains_key(f));
        }
    }

    fn drop_one(&mut self, node: Node) -> (gone: Option<Vec<u8>>)
        requires
            old(self)@.wf(),
        ensures
            final(self)@ == old(self)@.dropped_one(node).0,
            match gone {
                Some(flat) => old(self)@.dropped_one(node).1 == seq![flat@],
                None => old(self)@.dropped_one(node).1 == Seq::<Seq<u8>>::empty(),
            },
            final(self)@.wf(),
    {
        if self.held(&node.seq) {
            return None;
        }
        self.refs.remove(&node.seq);
        match self.seq_to_flat.remove(&node.seq) {
            Some(flat) => {
                self.forget(&flat);
                Some(flat)
            },
            None => {
                assert(self@ =~= old(self)@.dropped_one(node).0);
                None
            },
        }
    }

    /// Lets up to `n` blocks without references make room; returns the flat hashes
    /// of those that left.
    pub fn drop_inactive_victims(&mut self, n: u64) -> (gone: Vec<Vec<u8>>)
        requires
            old(self)@.wf(),
        ensures
            final(self)@ == old(self)@.evicted(n as nat).0,
            keys::views(gone@) == old(self)@.evicted(n as nat).1,
            final(self)@.wf(),
    {
        proof {
            inactive::allocation_is_complete(self@.inactive, n as nat, self@.freq);
        }
        let victims = self.inactive.allocate(n, &self.freq);
        let ghost start = self@;
        assert(start =~= PoolView {
            inactive: old(self)@.inactive.allocated(n as nat, old(self)@.freq).0,
            ..old(self)@
        });
        let mut gone: Vec<Vec<u8>> = Vec::new();
        let mut i: usize = 0;
        assert(victims@.take(0) =~= Seq::empty());
        assert(keys::views(gone@) =~= Seq::empty());
        while i < victims.len()
            invariant
                i <= victims@.len(),
                self@.wf(),
                self@ == start.dropped(victims@.take(i as int)).0,
                keys::views(gone@) == start.dropped(victims@.take(i as int)).1,
            decreases victims@.len() - i,
        {
            let ghost before = keys::views(gone@);
            let ghost at = self@;
            assert(victims@.take(i + 1).drop_last() =~= victims@.take(i as int));
            if let Some(flat) = self.drop_one(victims[i]) {
                let ghost f = flat@;
                gone.push(flat);
                assert(keys::views(gone@) =~= before + seq![f]);
            } else {
                assert(before + Seq::<Seq<u8>>::empty() =~= before);
            }
            i += 1;
        }
        assert(victims@.take(i as int) =~= victims@);
        gone
    }

    /// Lets a block make room from now on, where the index has space for it.
    pub fn enter(&mut self, seq: SequenceHash, block_id: u64)
        requires
            old(self)@.wf(),
        ensures
            final(self)@ == old(self)@.entered(seq, block_id),
            final(self)@.wf(),
    {
        if !self.inactive.has(&seq) && self.inactive.len() < self.inactive_cap {
            self.inactive.insert(seq, block_id, &self.freq);
        }
        assert(self@ =~= old(self)@.entered(seq, block_id));
    }

    /// Keeps a block from making room.
    pub fn leave(&mut self, seq: &SequenceHash)
        requires
            old(self)@.wf(),
        ensures
            final(self)@ == old(self)@.left(*seq),
            final(self)@.wf(),
    {
        proof {
            inactive::remove_keeps_wf(self@.inactive, *seq, self@.freq);
            lemma_left_len(self@.inactive, *seq, self@.freq);
        }
        self.inactive.take(seq, &self.freq);
        assert(self@ =~= old(self)@.left(*seq));
    }

    /// Sets the references to a block.
    pub fn account(&mut self, seq: SequenceHash, block_id: u64, next: RefAccounts)
        requires
            old(self)@.wf(),
            next.wf(),
        ensures
            final(self)@ == old(self)@.accounted(seq, block_id, next),
            final(self)@.wf(),
    {
        let before = self.held(&seq);
        let after = next.held();
        self.refs.insert(seq, next);
        assert(self@ =~= PoolView { refs: old(self)@.refs.insert(seq, next), ..old(self)@ });
        if before && !after {
            self.enter(seq, block_id);
        } else if !before && after {
            self.leave(&seq);
        }
    }

    /// Stores a record under its flat hash.
    pub fn store(&mut self, flat: &Vec<u8>, seq: SequenceHash, meta: BlockMeta, chain: Vec<Vec<u8>>)
        requires
            old(self)@.wf(),
            chain@.len() <= MAX_CHAIN,
        ensures
            final(self)@ == old(self)@.stored(flat@, seq, meta@, keys::views(chain@)),
            final(self)@.wf(),
    {
        let block_id: u64 = match self.by_flat.get(flat) {
            Some(prev) => prev.block_id,
            None => {
                let id: u64 = self.next_block_id;
                if id < u64::MAX {
                    self.next_block_id = id + 1;
                }
                id
            },
        };
        self.seq_to_flat.insert(seq, flat.dup());
        self.by_flat.insert(
            flat.dup(),
            Entry { seq_hash: seq, meta, block_id, prefix_chain: chain },
        );
        assert(self@ =~= old(self)@.stored(flat@, seq, meta@, keys::views(chain@)));
        assert forall|f: Seq<u8>| #[trigger] self@.by_flat.contains_key(f) implies self@.by_flat[f].chain.len()
            <= MAX_CHAIN by {
            if f != flat@ {
                assert(old(self)@.by_flat.contains_key(f));
            }
        }
    }

    /// Takes a block out for good.
    pub fn discard(&mut self, flat: &Vec<u8>)
        requires
            old(self)@.wf(),
            old(self)@.by_flat.contains_key(flat@),
        ensures
            final(self)@ == old(self)@.discarded(flat@),
            final(self)@.wf(),
    {
        let seq = match self.by_flat.get(flat) {
            Some(e) => e.seq_hash,
            None => return ,
        };
        self.refs.remove(&seq);
        self.seq_to_flat.remove(&seq);
        assert(self@.refs == old(self)@.refs.remove(seq));
        assert(self@.wf()) by {
            assert forall|s: SequenceHash| #[trigger] self@.refs.contains_key(s) implies self@.refs[s].wf() by {
                assert(old(self)@.refs.contains_key(s));
            }
        }
        self.leave(&seq);
        self.forget(flat);
    }

    /// Replaces the record of a block.
    pub fn update(&mut self, flat: &Vec<u8>, meta: BlockMeta)
        requires
            old(self)@.wf(),
            old(self)@.by_flat.contains_key(flat@),
        ensures
            final(self)@ == old(self)@.updated(flat@, meta@),
            final(self)@.wf(),
    {
        if let Some(e) = self.by_flat.remove(flat) {
            self.by_flat.insert(
                flat.dup(),
                Entry {
                    seq_hash: e.seq_hash,
                    meta,
                    block_id: e.block_id,
                    prefix_chain: e.prefix_chain,
                },
            );
        }
        assert(self@.by_flat =~= old(self)@.updated(flat@, meta@).by_flat);
        assert forall|f: Seq<u8>| #[trigger] self@.by_flat.contains_key(f) implies self@.by_flat[f].chain.len()
            <= MAX_CHAIN by {
            assert(old(self)@.by_flat.contains_key(f));
        }
    }
}

proof fn lemma_left_len(v: InactiveView, seq: SequenceHash, counts: FrequencyView)
    ensures
        v.removed(seq, counts).nodes.len() <= v.nodes.len(),
{
    v.nodes.lemma_filter_len(|n: Node| n.seq != seq);
}

/// Names the nodes of locations where they are missing.
pub fn locate_all(locations: &Vec<Location>, node_id: &str) -> (r: Vec<Location>)
    ensures
        keys::views(r@) == located(keys::views(locations@), node_id@),
{
    let mut r: Vec<Location> = Vec::with_capacity(locations.len());
    let mut i: usize = 0;
    while i < locations.len()
        invariant
            i <= locations@.len(),
            r@.len() == i,
            forall|j: int|
                0 <= j < i ==> (#[trigger] r@[j])@ == located(keys::views(locations@), node_id@)[j],
        decreases locations@.len() - i,
    {
        let mut l = locations[i].dup();
        if l.node_id.as_str().is_empty() {
            l.node_id = text(node_id);
        }
        r.push(l);
        i += 1;
    }
    assert(keys::views(r@) =~= located(keys::views(locations@), node_id@));
    r
}

/// Makes a record ready to be stored.
pub fn settle(meta: &BlockMeta, pool_kind: i32, node_id: &str) -> (r: BlockMeta)
    ensures
        r@ == settled(meta@, pool_kind, node_id@),
{
    let id = match &meta.id {
        Some(id) => {
            let mut id = id.dup();
            id.pool_kind = pool_kind;
            Some(id)
        },
        None => None,
    };
    BlockMeta {
        id,
        block_kind: meta.block_kind,
        locations: locate_all(&meta.locations, node_id),
        l3_present: meta.l3_present,
        ref_count: meta.ref_count,
    }
}

} // verus!
