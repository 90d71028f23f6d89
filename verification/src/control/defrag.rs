//! Layout plans: segments with holes are compacted, and the blocks of a chain are
//! brought side by side on their node. A plan moves no bytes, and blocks that are
//! referenced stay where they are.

use vstd::prelude::*;
use vstd::string::*;

use crate::base::keys;
use crate::base::keys::{dup_opt, Dup, Key};
use crate::base::listing;
use crate::base::listing::{sorted_keys, sorted_members, Ordered};
use crate::base::order;
use crate::base::order::{bytes_leq, sort_ranked, text_leq, Ranked};
use crate::base::set::KeySet;
use crate::base::text;
use crate::base::text::{joined, ns_text, text};
use crate::control::authority;
use crate::control::authority::{Authority, AuthorityView};
use crate::control::locations;
use crate::control::locations::place_location;
use crate::control::namespace::NamespaceKey;
use crate::control::pool;
use crate::control::pool::{resolve_pool_kind, Entry, EntryView, Pool, PoolView};
use crate::control::reconcile::moved_event;
use crate::proto::{
    BlockMeta, BlockMetaView, DefragMode, DefragMove, DefragMoveView, Location, LocationView, Tier,
};

verus! {

/// The size of a slot, by default.
pub const DEFAULT_DEFRAG_SLOT_BYTES: u64 = 4096;

/// Slots of a segment that a chain may be brought to.
pub const MAX_SLOT_IDX: u64 = 64;

/// Sum as far as numbers reach.
pub open spec fn sat_add(a: u64, b: u64) -> u64 {
    if a + b > u64::MAX {
        u64::MAX
    } else {
        (a + b) as u64
    }
}

/// Product as far as numbers reach.
pub open spec fn sat_mul(a: u64, b: u64) -> u64 {
    if a * b > u64::MAX {
        u64::MAX
    } else {
        (a * b) as u64
    }
}

fn add_sat(a: u64, b: u64) -> (r: u64)
    ensures
        r == sat_add(a, b),
{
    if a > u64::MAX - b {
        u64::MAX
    } else {
        a + b
    }
}

fn mul_sat(a: u64, b: u64) -> (r: u64)
    ensures
        r == sat_mul(a, b),
{
    assert(0 <= a * b <= 340282366920938463426481119284349108225) by (nonlinear_arith)
        requires
            0 <= a <= 18446744073709551615,
            0 <= b <= 18446744073709551615,
    ;
    let n: u128 = a as u128 * b as u128;
    if n > 18_446_744_073_709_551_615 {
        u64::MAX
    } else {
        n as u64
    }
}

/// A segment of a node.
pub struct SegmentKey {
    pub node_id: String,
    pub segment: u64,
}

impl View for SegmentKey {
    type V = (Seq<char>, u64);

    open spec fn view(&self) -> (Seq<char>, u64) {
        (self.node_id@, self.segment)
    }
}

impl Dup for SegmentKey {
    fn dup(&self) -> (copy: Self) {
        SegmentKey { node_id: self.node_id.dup(), segment: self.segment }
    }
}

impl Key for SegmentKey {
    fn same(&self, other: &Self) -> (same: bool) {
        self.node_id.same(&other.node_id) && self.segment == other.segment
    }
}

impl Ranked for SegmentKey {
    open spec fn ranks(a: (Seq<char>, u64), b: (Seq<char>, u64)) -> bool {
        if a.0 != b.0 {
            String::ranks(a.0, b.0)
        } else {
            a.1 <= b.1
        }
    }

    fn leq(&self, other: &Self) -> (le: bool) {
        if !self.node_id.same(&other.node_id) {
            text_leq(self.node_id.as_str(), other.node_id.as_str())
        } else {
            self.segment <= other.segment
        }
    }
}

impl Ordered for SegmentKey {
    proof fn rank_total(a: (Seq<char>, u64), b: (Seq<char>, u64)) {
        String::rank_total(a.0, b.0);
    }

    proof fn rank_transitive(a: (Seq<char>, u64), b: (Seq<char>, u64), c: (Seq<char>, u64)) {
        if a.0 != b.0 && b.0 != c.0 {
            String::rank_transitive(a.0, b.0, c.0);
            if a.0 == c.0 {
                String::rank_antisymmetric(a.0, b.0);
            }
        }
    }

    proof fn rank_antisymmetric(a: (Seq<char>, u64), b: (Seq<char>, u64)) {
        if a.0 != b.0 {
            String::rank_antisymmetric(a.0, b.0);
        }
    }
}

/// A slot in L2 and the block in it.
pub struct Slot {
    pub key: SegmentKey,
    pub offset: u64,
    pub flat: Vec<u8>,
    pub frozen: bool,
}

/// What a slot stands for.
#[verifier::ext_equal]
pub struct SlotView {
    pub key: (Seq<char>, u64),
    pub offset: u64,
    pub flat: Seq<u8>,
    pub frozen: bool,
}

impl View for Slot {
    type V = SlotView;

    open spec fn view(&self) -> SlotView {
        SlotView {
            key: self.key@,
            offset: self.offset,
            flat: self.flat@,
            frozen: self.frozen,
        }
    }
}

/// The hash in the address of a record.
pub open spec fn named_hash(meta: BlockMetaView) -> Seq<u8> {
    match meta.id {
        Some(id) => id.block_hash,
        None => Seq::empty(),
    }
}

/// The slots of a block in L2.
pub open spec fn slots_at(locations: Seq<LocationView>, flat: Seq<u8>, frozen: bool) -> Seq<SlotView>
    decreases locations.len(),
{
    if locations.len() == 0 {
        Seq::empty()
    } else {
        let rest = slots_at(locations.drop_last(), flat, frozen);
        let l = locations.last();
        if l.tier == Tier::L2.spec_number() {
            rest.push(
                SlotView { key: (l.node_id, l.segment_id), offset: l.offset, flat, frozen },
            )
        } else {
            rest
        }
    }
}

/// The slots of some blocks in L2.
pub open spec fn slots_of(p: PoolView, flats: Seq<Seq<u8>>) -> Seq<SlotView>
    decreases flats.len(),
{
    if flats.len() == 0 {
        Seq::empty()
    } else {
        let e = p.by_flat[flats.last()];
        slots_of(p, flats.drop_last()) + slots_at(
            e.meta.locations,
            named_hash(e.meta),
            p.holds(e.seq),
        )
    }
}

/// The segments with a slot that may be moved.
pub open spec fn movable_segments(slots: Seq<SlotView>) -> Set<(Seq<char>, u64)> {
    Set::new(
        |k: (Seq<char>, u64)|
            exists|i: int|
                0 <= i < slots.len() && (#[trigger] slots[i]).key == k && !slots[i].frozen,
    )
}

/// A slot of the segment must stay.
pub open spec fn pinned(slots: Seq<SlotView>, k: (Seq<char>, u64)) -> bool {
    exists|i: int| 0 <= i < slots.len() && (#[trigger] slots[i]).key == k && slots[i].frozen
}

/// The offsets of a segment that may be moved.
pub open spec fn offsets_in(slots: Seq<SlotView>, k: (Seq<char>, u64)) -> Set<u64> {
    Set::new(
        |o: u64|
            exists|i: int|
                0 <= i < slots.len() && (#[trigger] slots[i]).key == k && !slots[i].frozen
                    && slots[i].offset == o,
    )
}

/// Offsets follow each other from zero on, a slot apart.
pub open spec fn dense(offsets: Seq<u64>, slot: u64) -> bool {
    forall|i: int| 0 <= i < offsets.len() ==> #[trigger] offsets[i] == sat_mul(i as u64, slot)
}

/// The segment has holes, and nothing in it must stay.
pub open spec fn compactable(slots: Seq<SlotView>, k: (Seq<char>, u64), slot: u64) -> bool {
    let offsets = listing::listing::<u64>(offsets_in(slots, k));
    !pinned(slots, k) && offsets.len() >= 2 && !dense(offsets, slot)
}

/// Orders to compact those of some segments that have holes.
pub open spec fn compact_moves(slots: Seq<SlotView>, ks: Seq<(Seq<char>, u64)>, slot: u64) -> Seq<
    DefragMoveView,
>
    decreases ks.len(),
{
    if ks.len() == 0 {
        Seq::empty()
    } else {
        let rest = compact_moves(slots, ks.drop_last(), slot);
        let k = ks.last();
        if compactable(slots, k, slot) {
            rest.push(
                DefragMoveView {
                    id: None,
                    node_id: k.0,
                    from_segment: k.1,
                    from_offset: 0,
                    to_segment: k.1,
                    to_offset: 0,
                    compact_segment: true,
                    segment_id: k.1,
                },
            )
        } else {
            rest
        }
    }
}

/// A chain on a node.
pub struct ChainKey {
    pub root: Vec<u8>,
    pub node_id: String,
}

impl View for ChainKey {
    type V = (Seq<u8>, Seq<char>);

    open spec fn view(&self) -> (Seq<u8>, Seq<char>) {
        (self.root@, self.node_id@)
    }
}

impl Dup for ChainKey {
    fn dup(&self) -> (copy: Self) {
        ChainKey { root: self.root.dup(), node_id: self.node_id.dup() }
    }
}

impl Key for ChainKey {
    fn same(&self, other: &Self) -> (same: bool) {
        self.root.same(&other.root) && self.node_id.same(&other.node_id)
    }
}

impl Ranked for ChainKey {
    open spec fn ranks(a: (Seq<u8>, Seq<char>), b: (Seq<u8>, Seq<char>)) -> bool {
        if a.0 != b.0 {
            Vec::<u8>::ranks(a.0, b.0)
        } else {
            String::ranks(a.1, b.1)
        }
    }

    fn leq(&self, other: &Self) -> (le: bool) {
        if !self.root.same(&other.root) {
            bytes_leq(self.root.as_slice(), other.root.as_slice())
        } else {
            text_leq(self.node_id.as_str(), other.node_id.as_str())
        }
    }
}

impl Ordered for ChainKey {
    proof fn rank_total(a: (Seq<u8>, Seq<char>), b: (Seq<u8>, Seq<char>)) {
        Vec::<u8>::rank_total(a.0, b.0);
        String::rank_total(a.1, b.1);
    }

    proof fn rank_transitive(
        a: (Seq<u8>, Seq<char>),
        b: (Seq<u8>, Seq<char>),
        c: (Seq<u8>, Seq<char>),
    ) {
        if a.0 != b.0 && b.0 != c.0 {
            Vec::<u8>::rank_transitive(a.0, b.0, c.0);
            if a.0 == c.0 {
                Vec::<u8>::rank_antisymmetric(a.0, b.0);
            }
        } else if a.0 == b.0 && b.0 == c.0 {
            String::rank_transitive(a.1, b.1, c.1);
        }
    }

    proof fn rank_antisymmetric(a: (Seq<u8>, Seq<char>), b: (Seq<u8>, Seq<char>)) {
        if a.0 != b.0 {
            Vec::<u8>::rank_antisymmetric(a.0, b.0);
        } else {
            String::rank_antisymmetric(a.1, b.1);
        }
    }
}

/// A block of a chain in L2.
pub struct Member {
    pub key: ChainKey,
    pub pos: usize,
    pub flat: Vec<u8>,
    pub segment: u64,
    pub offset: u64,
}

/// What a member stands for.
#[verifier::ext_equal]
pub struct MemberView {
    pub key: (Seq<u8>, Seq<char>),
    pub pos: usize,
    pub flat: Seq<u8>,
    pub segment: u64,
    pub offset: u64,
}

impl View for Member {
    type V = MemberView;

    open spec fn view(&self) -> MemberView {
        MemberView {
            key: self.key@,
            pos: self.pos,
            flat: self.flat@,
            segment: self.segment,
            offset: self.offset,
        }
    }
}

impl Dup for Member {
    fn dup(&self) -> (copy: Self) {
        Member {
            key: self.key.dup(),
            pos: self.pos,
            flat: self.flat.dup(),
            segment: self.segment,
            offset: self.offset,
        }
    }
}

impl Ranked for Member {
    open spec fn ranks(a: MemberView, b: MemberView) -> bool {
        a.pos <= b.pos
    }

    fn leq(&self, other: &Self) -> (le: bool) {
        self.pos <= other.pos
    }
}

/// The first location in L2, from the `i`-th on; their number where there is none.
pub open spec fn first_l2(locations: Seq<LocationView>, i: int) -> int
    decreases locations.len() - i,
{
    if i < 0 || i >= locations.len() {
        locations.len() as int
    } else if locations[i].tier == Tier::L2.spec_number() {
        i
    } else {
        first_l2(locations, i + 1)
    }
}

/// Where a hash is first in a chain, from the `i`-th on; the last place where it
/// is not.
pub open spec fn place_in(chain: Seq<Seq<u8>>, flat: Seq<u8>, i: int) -> int
    decreases chain.len() - i,
{
    if i < 0 || i >= chain.len() {
        chain.len() - 1
    } else if chain[i] == flat {
        i
    } else {
        place_in(chain, flat, i + 1)
    }
}

/// A block as a member of its chain; none where it has no chain, is referenced or
/// has no copy in L2.
pub open spec fn member_of(p: PoolView, e: EntryView) -> Option<MemberView> {
    let at = first_l2(e.meta.locations, 0);
    if e.chain.len() == 0 || p.holds(e.seq) || at >= e.meta.locations.len() {
        None
    } else {
        let l = e.meta.locations[at];
        Some(
            MemberView {
                key: (e.chain[0], l.node_id),
                pos: place_in(e.chain, named_hash(e.meta), 0) as usize,
                flat: named_hash(e.meta),
                segment: l.segment_id,
                offset: l.offset,
            },
        )
    }
}

/// The members among some blocks.
pub open spec fn members_of(p: PoolView, flats: Seq<Seq<u8>>) -> Seq<MemberView>
    decreases flats.len(),
{
    if flats.len() == 0 {
        Seq::empty()
    } else {
        let rest = members_of(p, flats.drop_last());
        match member_of(p, p.by_flat[flats.last()]) {
            Some(m) => rest.push(m),
            None => rest,
        }
    }
}

/// The chains of members.
pub open spec fn chains_of(members: Seq<MemberView>) -> Set<(Seq<u8>, Seq<char>)> {
    members.map_values(|m: MemberView| m.key).to_set()
}

/// The members of one chain, from the root on.
pub open spec fn chain_members(members: Seq<MemberView>, k: (Seq<u8>, Seq<char>)) -> Seq<
    MemberView,
> {
    order::ranked::<Member>(members.filter(|m: MemberView| m.key == k))
}

/// The offset of the `i`-th of some slots.
pub open spec fn offset_at(base: u64, i: int, slot: u64) -> u64 {
    sat_add(base, sat_mul(i as u64, slot))
}

/// The members are side by side in one segment.
pub open spec fn adjacent(ms: Seq<MemberView>, slot: u64) -> bool {
    forall|i: int|
        0 <= i < ms.len() ==> (#[trigger] ms[i]).segment == ms[0].segment && ms[i].offset
            == offset_at(ms[0].offset, i, slot)
}

/// The block in a slot; of several the last.
pub open spec fn occupant(slots: Seq<SlotView>, k: (Seq<char>, u64), offset: u64) -> Option<Seq<u8>>
    decreases slots.len(),
{
    if slots.len() == 0 {
        None
    } else if slots.last().key == k && slots.last().offset == offset {
        Some(slots.last().flat)
    } else {
        occupant(slots.drop_last(), k, offset)
    }
}

/// The slot is free, or holds that very block.
pub open spec fn free_for(
    slots: Seq<SlotView>,
    k: (Seq<char>, u64),
    offset: u64,
    flat: Seq<u8>,
) -> bool {
    match occupant(slots, k, offset) {
        None => true,
        Some(f) => f == flat,
    }
}

/// The members fit side by side from an offset on.
pub open spec fn fits(
    slots: Seq<SlotView>,
    k: (Seq<char>, u64),
    base: u64,
    ms: Seq<MemberView>,
    slot: u64,
) -> bool {
    forall|i: int|
        0 <= i < ms.len() ==> free_for(
            slots,
            k,
            offset_at(base, i, slot),
            (#[trigger] ms[i]).flat,
        )
}

/// The first place of a segment where the members fit, from the `i`-th slot on.
pub open spec fn first_fit(
    slots: Seq<SlotView>,
    k: (Seq<char>, u64),
    ms: Seq<MemberView>,
    slot: u64,
    i: u64,
    limit: u64,
) -> Option<u64>
    decreases limit - i,
{
    if i >= limit {
        None
    } else if fits(slots, k, sat_mul(i, slot), ms, slot) {
        Some(sat_mul(i, slot))
    } else {
        first_fit(slots, k, ms, slot, (i + 1) as u64, limit)
    }
}

/// How many places of a segment are tried for so many members.
pub open spec fn tries(n: nat) -> u64 {
    if n >= MAX_SLOT_IDX {
        1
    } else {
        (MAX_SLOT_IDX - n + 1) as u64
    }
}

/// The first place in some segments where the members fit.
pub open spec fn first_place(
    slots: Seq<SlotView>,
    node_id: Seq<char>,
    segments: Seq<u64>,
    ms: Seq<MemberView>,
    slot: u64,
) -> Option<(u64, u64)>
    decreases segments.len(),
{
    if segments.len() == 0 {
        None
    } else {
        match first_fit(slots, (node_id, segments[0]), ms, slot, 0, tries(ms.len())) {
            Some(base) => Some((segments[0], base)),
            None => first_place(slots, node_id, segments.skip(1), ms, slot),
        }
    }
}

/// The segments of a node, with those of the members.
pub open spec fn segments_on(slots: Seq<SlotView>, node_id: Seq<char>, ms: Seq<MemberView>) -> Set<
    u64,
> {
    Set::new(
        |s: u64|
            (exists|i: int|
                0 <= i < slots.len() && (#[trigger] slots[i]).key == (node_id, s)) || (exists|i:
                int| 0 <= i < ms.len() && (#[trigger] ms[i]).segment == s),
    )
}

/// Where the members are brought: the first place that fits, in the segment of the
/// first member before the others, or a new segment.
pub open spec fn target(
    slots: Seq<SlotView>,
    node_id: Seq<char>,
    ms: Seq<MemberView>,
    slot: u64,
) -> (u64, u64) {
    let segments = listing::listing::<u64>(segments_on(slots, node_id, ms));
    let first = ms[0].segment;
    match first_place(
        slots,
        node_id,
        seq![first] + segments.filter(|s: u64| s != first),
        ms,
        slot,
    ) {
        Some(place) => place,
        None => (sat_add(segments.last(), 1), 0),
    }
}

/// Orders to bring members to a place.
pub open spec fn member_moves(
    p: PoolView,
    node_id: Seq<char>,
    ms: Seq<MemberView>,
    to: (u64, u64),
    slot: u64,
    n: int,
) -> Seq<DefragMoveView>
    decreases n,
{
    if n <= 0 {
        Seq::empty()
    } else {
        let rest = member_moves(p, node_id, ms, to, slot, n - 1);
        let m = ms[n - 1];
        let to_offset = offset_at(to.1, n - 1, slot);
        if m.segment == to.0 && m.offset == to_offset {
            rest
        } else {
            rest.push(
                DefragMoveView {
                    id: if p.by_flat.contains_key(m.flat) {
                        p.by_flat[m.flat].meta.id
                    } else {
                        None
                    },
                    node_id,
                    from_segment: m.segment,
                    from_offset: m.offset,
                    to_segment: to.0,
                    to_offset,
                    compact_segment: false,
                    segment_id: to.0,
                },
            )
        }
    }
}

/// Orders for one chain.
pub open spec fn chain_moves(
    p: PoolView,
    slots: Seq<SlotView>,
    members: Seq<MemberView>,
    k: (Seq<u8>, Seq<char>),
    slot: u64,
) -> Seq<DefragMoveView> {
    let ms = chain_members(members, k);
    if ms.len() < 2 || adjacent(ms, slot) || slot == 0 {
        Seq::empty()
    } else {
        member_moves(p, k.1, ms, target(slots, k.1, ms, slot), slot, ms.len() as int)
    }
}

/// Orders for some chains.
pub open spec fn colocate_moves(
    p: PoolView,
    slots: Seq<SlotView>,
    members: Seq<MemberView>,
    ks: Seq<(Seq<u8>, Seq<char>)>,
    slot: u64,
) -> Seq<DefragMoveView>
    decreases ks.len(),
{
    if ks.len() == 0 {
        Seq::empty()
    } else {
        colocate_moves(p, slots, members, ks.drop_last(), slot) + chain_moves(
            p,
            slots,
            members,
            ks.last(),
            slot,
        )
    }
}

/// The plan that compacts a pool's segments.
pub open spec fn compact_plan(p: PoolView, slot: u64) -> Seq<DefragMoveView> {
    let slots = slots_of(p, authority::flats_of(Some(p)));
    compact_moves(slots, listing::listing::<SegmentKey>(movable_segments(slots)), slot)
}

/// The plan that brings a pool's chains together.
pub open spec fn colocate_plan(p: PoolView, slot: u64) -> Seq<DefragMoveView> {
    let flats = authority::flats_of(Some(p));
    let members = members_of(p, flats);
    colocate_moves(
        p,
        slots_of(p, flats),
        members,
        listing::listing::<ChainKey>(chains_of(members)),
        slot,
    )
}

impl AuthorityView {
    /// The layout plan of a pool.
    pub open spec fn layout_plan(
        self,
        k: (Seq<char>, Seq<char>),
        raw_kind: i32,
        mode: DefragMode,
        slot_bytes: u64,
    ) -> Result<Seq<DefragMoveView>, Seq<char>> {
        let slot = if slot_bytes == 0 {
            DEFAULT_DEFRAG_SLOT_BYTES
        } else {
            slot_bytes
        };
        let compact = mode != DefragMode::Colocate;
        let colocate = mode != DefragMode::Compact;
        match pool::pool_kind_of(raw_kind) {
            Err(e) => Err(e),
            Ok(pk) => if !self.spaces.contains_key(k) {
                Err("plan_defrag: unknown namespace "@ + text::ns_named(k.0, k.1))
            } else {
                match self.spaces[k].pool(pk) {
                    None => Ok(Seq::empty()),
                    Some(p) => Ok(
                        (if compact {
                            compact_plan(p, slot)
                        } else {
                            Seq::empty()
                        }) + (if colocate {
                            colocate_plan(p, slot)
                        } else {
                            Seq::empty()
                        }),
                    ),
                }
            },
        }
    }

    /// A block has new coordinates.
    pub open spec fn relocated_to(
        self,
        k: (Seq<char>, Seq<char>),
        raw_kind: i32,
        flat: Seq<u8>,
        l: LocationView,
    ) -> (AuthorityView, Result<(), Seq<char>>) {
        match self.block_fault("relocate"@, k, raw_kind, flat) {
            Some(e) => (self, Err(e)),
            None => {
                let pk = pool::pool_kind_of(raw_kind)->Ok_0;
                let p = self.spaces[k].pool(pk)->0;
                let was = p.by_flat[flat].meta;
                let meta = BlockMetaView { locations: locations::placed_at(was.locations, l), ..was };
                (
                    self.with_pool_at(k, pk, p.updated(flat, meta)).with_events(
                        seq![authority::moved(k.0, k.1, pk, flat, meta)],
                    ),
                    Ok(()),
                )
            },
        }
    }
}

fn hash_named(meta: &BlockMeta) -> (h: Vec<u8>)
    ensures
        h@ == named_hash(meta@),
{
    match &meta.id {
        Some(id) => id.block_hash.dup(),
        None => Vec::new(),
    }
}

/// Collects the slots of a block in L2.
fn push_slots(out: &mut Vec<Slot>, locations: &Vec<Location>, flat: &Vec<u8>, frozen: bool)
    ensures
        keys::views(final(out)@) == keys::views(old(out)@) + slots_at(keys::views(locations@), flat@, frozen),
{
    let ghost all = keys::views(locations@);
    let ghost first = keys::views(out@);
    let mut i: usize = 0;
    assert(all.take(0) =~= Seq::empty());
    assert(first + Seq::<SlotView>::empty() =~= first);
    while i < locations.len()
        invariant
            i <= locations@.len() == all.len(),
            all == keys::views(locations@),
            keys::views(out@) == first + slots_at(all.take(i as int), flat@, frozen),
        decreases locations@.len() - i,
    {
        let l = &locations[i];
        proof {
            assert(all.take(i + 1).drop_last() =~= all.take(i as int));
            assert(all[i as int] == l@);
        }
        if l.tier == Tier::L2.number() {
            let ghost before = keys::views(out@);
            let s = Slot {
                key: SegmentKey { node_id: l.node_id.dup(), segment: l.segment_id },
                offset: l.offset,
                flat: flat.dup(),
                frozen,
            };
            let ghost v = s@;
            out.push(s);
            assert(keys::views(out@) =~= before.push(v));
            assert(first + slots_at(all.take(i + 1), flat@, frozen) =~= before.push(v));
        }
        i += 1;
    }
    assert(all.take(i as int) =~= all);
}

/// Collects the slots of a pool in L2.
fn collect_slots(p: &Pool, flats: &Vec<Vec<u8>>) -> (r: Vec<Slot>)
    requires
        p@.wf(),
        forall|i: int|
            0 <= i < flats@.len() ==> p@.by_flat.contains_key(#[trigger] keys::views(flats@)[i]),
    ensures
        keys::views(r@) == slots_of(p@, keys::views(flats@)),
{
    let ghost all = keys::views(flats@);
    let mut r: Vec<Slot> = Vec::new();
    let mut i: usize = 0;
    assert(all.take(0) =~= Seq::empty());
    assert(keys::views(r@) =~= Seq::empty());
    while i < flats.len()
        invariant
            i <= flats@.len() == all.len(),
            all == keys::views(flats@),
            p@.wf(),
            forall|i: int|
                0 <= i < flats@.len() ==> p@.by_flat.contains_key(#[trigger] all[i]),
            keys::views(r@) == slots_of(p@, all.take(i as int)),
        decreases flats@.len() - i,
    {
        proof {
            assert(all.take(i + 1).drop_last() =~= all.take(i as int));
            assert(all[i as int] == flats@[i as int]@);
            assert(p@.by_flat.contains_key(all[i as int]));
        }
        if let Some(e) = p.by_flat.get(&flats[i]) {
            push_slots(&mut r, &e.meta.locations, &hash_named(&e.meta), p.held(&e.seq_hash));
        }
        i += 1;
    }
    assert(all.take(i as int) =~= all);
    r
}

/// Collects the segments with a slot that may be moved.
fn collect_segments(slots: &Vec<Slot>) -> (r: KeySet<SegmentKey>)
    ensures
        r@ == movable_segments(keys::views(slots@)),
{
    let ghost all = keys::views(slots@);
    let mut r: KeySet<SegmentKey> = KeySet::new();
    let mut i: usize = 0;
    assert(r@ =~= movable_segments(all.take(0)));
    while i < slots.len()
        invariant
            i <= slots@.len() == all.len(),
            all == keys::views(slots@),
            r@ == movable_segments(all.take(i as int)),
        decreases slots@.len() - i,
    {
        let s = &slots[i];
        let ghost before = r@;
        if !s.frozen {
            r.insert(s.key.dup());
        }
        proof {
            let (a, b) = (all.take(i as int), all.take(i + 1));
            assert(all[i as int] == s@);
            assert forall|k: (Seq<char>, u64)| r@.contains(k) == movable_segments(b).contains(k) by {
                if before.contains(k) {
                    let j = choose|j: int|
                        0 <= j < a.len() && (#[trigger] a[j]).key == k && !a[j].frozen;
                    assert(b[j] == a[j]);
                }
                if !s.frozen && k == s@.key {
                    assert(b[i as int] == s@);
                }
                if movable_segments(b).contains(k) {
                    let j = choose|j: int|
                        0 <= j < b.len() && (#[trigger] b[j]).key == k && !b[j].frozen;
                    if j < i {
                        assert(a[j] == b[j]);
                    }
                }
            }
            assert(r@ =~= movable_segments(b));
        }
        i += 1;
    }
    assert(all.take(i as int) =~= all);
    r
}

/// Collects the offsets of a segment; none where a slot must stay.
fn collect_offsets(slots: &Vec<Slot>, k: &SegmentKey) -> (r: Option<KeySet<u64>>)
    ensures
        match r {
            None => pinned(keys::views(slots@), k@),
            Some(offsets) => !pinned(keys::views(slots@), k@) && offsets@ == offsets_in(
                keys::views(slots@),
                k@,
            ),
        },
{
    let ghost all = keys::views(slots@);
    let mut r: KeySet<u64> = KeySet::new();
    let mut i: usize = 0;
    assert(r@ =~= offsets_in(all.take(0), k@));
    while i < slots.len()
        invariant
            i <= slots@.len() == all.len(),
            all == keys::views(slots@),
            r@ == offsets_in(all.take(i as int), k@),
            forall|j: int| 0 <= j < i ==> !((#[trigger] all[j]).key == k@ && all[j].frozen),
        decreases slots@.len() - i,
    {
        let s = &slots[i];
        let ghost before = r@;
        assert(all[i as int] == s@);
        if s.key.same(k) {
            if s.frozen {
                return None;
            }
            r.insert(s.offset);
        }
        proof {
            let (a, b) = (all.take(i as int), all.take(i + 1));
            assert forall|o: u64| r@.contains(o) == offsets_in(b, k@).contains(o) by {
                if before.contains(o) {
                    let j = choose|j: int|
                        0 <= j < a.len() && (#[trigger] a[j]).key == k@ && !a[j].frozen
                            && a[j].offset == o;
                    assert(b[j] == a[j]);
                }
                if s@.key == k@ && o == s.offset {
                    assert(b[i as int] == s@);
                }
                if offsets_in(b, k@).contains(o) {
                    let j = choose|j: int|
                        0 <= j < b.len() && (#[trigger] b[j]).key == k@ && !b[j].frozen
                            && b[j].offset == o;
                    if j < i {
                        assert(a[j] == b[j]);
                    }
                }
            }
            assert(r@ =~= offsets_in(b, k@));
        }
        i += 1;
    }
    assert(all.take(i as int) =~= all);
    Some(r)
}

fn is_dense(offsets: &Vec<u64>, slot: u64) -> (b: bool)
    ensures
        b == dense(offsets@, slot),
{
    let mut i: usize = 0;
    while i < offsets.len()
        invariant
            i <= offsets@.len(),
            forall|j: int| 0 <= j < i ==> #[trigger] offsets@[j] == sat_mul(j as u64, slot),
        decreases offsets@.len() - i,
    {
        if offsets[i] != mul_sat(i as u64, slot) {
            return false;
        }
        i += 1;
    }
    true
}

/// Plans to compact the segments of a pool that have holes; a segment with a
/// referenced block is left alone.
fn plan_compact(slots: &Vec<Slot>, slot: u64) -> (r: Vec<DefragMove>)
    ensures
        keys::views(r@) == compact_moves(
            keys::views(slots@),
            listing::listing::<SegmentKey>(movable_segments(keys::views(slots@))),
            slot,
        ),
{
    let found = collect_segments(slots);
    let ks = sorted_members(&found);
    let ghost all = keys::views(ks@);
    let mut r: Vec<DefragMove> = Vec::new();
    let mut i: usize = 0;
    assert(all.take(0) =~= Seq::empty());
    assert(keys::views(r@) =~= Seq::empty());
    while i < ks.len()
        invariant
            i <= ks@.len() == all.len(),
            all == keys::views(ks@),
            keys::views(r@) == compact_moves(keys::views(slots@), all.take(i as int), slot),
        decreases ks@.len() - i,
    {
        let k = &ks[i];
        proof {
            assert(all.take(i + 1).drop_last() =~= all.take(i as int));
            assert(all[i as int] == k@);
        }
        if let Some(set) = collect_offsets(slots, k) {
            let offsets = sorted_members(&set);
            assert(keys::views(offsets@) =~= offsets@);
            if offsets.len() >= 2 && !is_dense(&offsets, slot) {
                let ghost before = keys::views(r@);
                let m = DefragMove {
                    id: None,
                    node_id: k.node_id.dup(),
                    from_segment: k.segment,
                    from_offset: 0,
                    to_segment: k.segment,
                    to_offset: 0,
                    compact_segment: true,
                    segment_id: k.segment,
                };
                let ghost v = m@;
                r.push(m);
                assert(keys::views(r@) =~= before.push(v));
            }
        }
        i += 1;
    }
    assert(all.take(i as int) =~= all);
    r
}

fn find_l2(locations: &Vec<Location>) -> (i: usize)
    ensures
        i == first_l2(keys::views(locations@), 0),
        i <= locations@.len(),
{
    let ghost all = keys::views(locations@);
    let mut i: usize = 0;
    while i < locations.len()
        invariant
            i <= locations@.len() == all.len(),
            all == keys::views(locations@),
            first_l2(all, 0) == first_l2(all, i as int),
        decreases locations@.len() - i,
    {
        assert(all[i as int] == locations@[i as int]@);
        if locations[i].tier == Tier::L2.number() {
            return i;
        }
        i += 1;
    }
    i
}

fn find_place(chain: &Vec<Vec<u8>>, flat: &Vec<u8>) -> (i: usize)
    requires
        chain@.len() > 0,
    ensures
        i == place_in(keys::views(chain@), flat@, 0),
{
    let ghost all = keys::views(chain@);
    let mut i: usize = 0;
    while i < chain.len()
        invariant
            i <= chain@.len() == all.len(),
            all == keys::views(chain@),
            all.len() > 0,
            place_in(all, flat@, 0) == place_in(all, flat@, i as int),
        decreases chain@.len() - i,
    {
        assert(all[i as int] == chain@[i as int]@);
        if chain[i].same(flat) {
            return i;
        }
        i += 1;
    }
    chain.len() - 1
}

/// A block as a member of its chain.
fn as_member(p: &Pool, e: &Entry) -> (r: Option<Member>)
    requires
        p@.wf(),
    ensures
        keys::opt(r) == member_of(p@, e@),
{
    if e.prefix_chain.len() == 0 || p.held(&e.seq_hash) {
        return None;
    }
    let at = find_l2(&e.meta.locations);
    if at >= e.meta.locations.len() {
        return None;
    }
    let l = &e.meta.locations[at];
    let flat = hash_named(&e.meta);
    let pos = find_place(&e.prefix_chain, &flat);
    Some(
        Member {
            key: ChainKey { root: e.prefix_chain[0].dup(), node_id: l.node_id.dup() },
            pos,
            flat,
            segment: l.segment_id,
            offset: l.offset,
        },
    )
}

/// Collects the members of chains.
fn collect_members(p: &Pool, flats: &Vec<Vec<u8>>) -> (r: Vec<Member>)
    requires
        p@.wf(),
        forall|i: int|
            0 <= i < flats@.len() ==> p@.by_flat.contains_key(#[trigger] keys::views(flats@)[i]),
    ensures
        keys::views(r@) == members_of(p@, keys::views(flats@)),
{
    let ghost all = keys::views(flats@);
    let mut r: Vec<Member> = Vec::new();
    let mut i: usize = 0;
    assert(all.take(0) =~= Seq::empty());
    assert(keys::views(r@) =~= Seq::empty());
    while i < flats.len()
        invariant
            i <= flats@.len() == all.len(),
            all == keys::views(flats@),
            p@.wf(),
            forall|i: int|
                0 <= i < flats@.len() ==> p@.by_flat.contains_key(#[trigger] all[i]),
            keys::views(r@) == members_of(p@, all.take(i as int)),
        decreases flats@.len() - i,
    {
        proof {
            assert(all.take(i + 1).drop_last() =~= all.take(i as int));
            assert(all[i as int] == flats@[i as int]@);
            assert(p@.by_flat.contains_key(all[i as int]));
        }
        if let Some(e) = p.by_flat.get(&flats[i]) {
            if let Some(m) = as_member(p, e) {
                let ghost before = keys::views(r@);
                let ghost v = m@;
                r.push(m);
                assert(keys::views(r@) =~= before.push(v));
            }
        }
        i += 1;
    }
    assert(all.take(i as int) =~= all);
    r
}

/// Collects the chains of members.
fn collect_chains(members: &Vec<Member>) -> (r: KeySet<ChainKey>)
    ensures
        r@ == chains_of(keys::views(members@)),
{
    let ghost all = keys::views(members@);
    let mut r: KeySet<ChainKey> = KeySet::new();
    let mut i: usize = 0;
    assert(r@ =~= chains_of(all.take(0)));
    while i < members.len()
        invariant
            i <= members@.len() == all.len(),
            all == keys::views(members@),
            r@ == chains_of(all.take(i as int)),
        decreases members@.len() - i,
    {
        let m = &members[i];
        r.insert(m.key.dup());
        proof {
            let f = |m: MemberView| m.key;
            assert(all[i as int] == m@);
            assert(all.take(i + 1).map_values(f) =~= all.take(i as int).map_values(f).push(
                m@.key,
            ));
            pool::lemma_push_to_set(all.take(i as int).map_values(f), m@.key);
        }
        i += 1;
    }
    assert(all.take(i as int) =~= all);
    r
}

/// Collects the members of one chain, from the root on.
fn collect_chain(members: &Vec<Member>, k: &ChainKey) -> (r: Vec<Member>)
    ensures
        keys::views(r@) == chain_members(keys::views(members@), k@),
{
    let ghost all = keys::views(members@);
    let ghost p = |m: MemberView| m.key == k@;
    let mut r: Vec<Member> = Vec::new();
    let mut i: usize = 0;
    assert(keys::views(r@) =~= all.take(0).filter(p)) by {
        reveal(Seq::filter);
    }
    while i < members.len()
        invariant
            i <= members@.len() == all.len(),
            all == keys::views(members@),
            p == (|m: MemberView| m.key == k@),
            keys::views(r@) == all.take(i as int).filter(p),
        decreases members@.len() - i,
    {
        let m = &members[i];
        proof {
            reveal(Seq::filter);
            assert(all.take(i + 1).drop_last() =~= all.take(i as int));
            assert(all[i as int] == m@);
        }
        let ghost before = keys::views(r@);
        if m.key.same(k) {
            r.push(m.dup());
            assert(keys::views(r@) =~= before.push(m@));
        }
        i += 1;
    }
    assert(all.take(i as int) =~= all);
    sort_ranked(r)
}

/// Tells whether members are side by side in one segment.
fn is_adjacent_on_segment(ms: &Vec<Member>, slot: u64) -> (b: bool)
    ensures
        b == adjacent(keys::views(ms@), slot),
{
    let ghost all = keys::views(ms@);
    let mut i: usize = 0;
    while i < ms.len()
        invariant
            i <= ms@.len() == all.len(),
            all == keys::views(ms@),
            forall|j: int|
                0 <= j < i ==> (#[trigger] all[j]).segment == all[0].segment && all[j].offset
                    == offset_at(all[0].offset, j, slot),
        decreases ms@.len() - i,
    {
        assert(all[i as int] == ms@[i as int]@);
        assert(all[0] == ms@[0]@);
        if ms[i].segment != ms[0].segment || ms[i].offset != add_sat(
            ms[0].offset,
            mul_sat(i as u64, slot),
        ) {
            return false;
        }
        i += 1;
    }
    true
}

/// Tells whether a slot is free, or holds that very block.
fn slot_free_for(slots: &Vec<Slot>, k: &SegmentKey, offset: u64, flat: &Vec<u8>) -> (b: bool)
    ensures
        b == free_for(keys::views(slots@), k@, offset, flat@),
{
    let ghost all = keys::views(slots@);
    let mut i: usize = slots.len();
    assert(all.take(i as int) =~= all);
    while i > 0
        invariant
            i <= slots@.len() == all.len(),
            all == keys::views(slots@),
            occupant(all, k@, offset) == occupant(all.take(i as int), k@, offset),
        decreases i,
    {
        assert(all.take(i as int).drop_last() =~= all.take(i - 1));
        assert(all[i - 1] == slots@[i - 1]@);
        let s = &slots[i - 1];
        if s.key.same(k) && s.offset == offset {
            return s.flat.same(flat);
        }
        i -= 1;
    }
    true
}

fn all_fit(slots: &Vec<Slot>, k: &SegmentKey, base: u64, ms: &Vec<Member>, slot: u64) -> (b: bool)
    ensures
        b == fits(keys::views(slots@), k@, base, keys::views(ms@), slot),
{
    let ghost all = keys::views(ms@);
    let mut i: usize = 0;
    while i < ms.len()
        invariant
            i <= ms@.len() == all.len(),
            all == keys::views(ms@),
            forall|j: int|
                0 <= j < i ==> free_for(
                    keys::views(slots@),
                    k@,
                    offset_at(base, j, slot),
                    (#[trigger] all[j]).flat,
                ),
        decreases ms@.len() - i,
    {
        assert(all[i as int] == ms@[i as int]@);
        let offset: u64 = add_sat(base, mul_sat(i as u64, slot));
        if !slot_free_for(slots, k, offset, &ms[i].flat) {
            return false;
        }
        i += 1;
    }
    true
}

fn find_fit(slots: &Vec<Slot>, k: &SegmentKey, ms: &Vec<Member>, slot: u64, limit: u64) -> (r: Option<
    u64,
>)
    ensures
        r == first_fit(keys::views(slots@), k@, keys::views(ms@), slot, 0, limit),
{
    let mut i: u64 = 0;
    while i < limit
        invariant
            i <= limit,
            first_fit(keys::views(slots@), k@, keys::views(ms@), slot, 0, limit) == first_fit(
                keys::views(slots@),
                k@,
                keys::views(ms@),
                slot,
                i,
                limit,
            ),
        decreases limit - i,
    {
        let base: u64 = mul_sat(i, slot);
        if all_fit(slots, k, base, ms, slot) {
            return Some(base);
        }
        i += 1;
    }
    None
}

/// Collects the segments of a node, with those of the members.
fn collect_node_segments(slots: &Vec<Slot>, node_id: &String, ms: &Vec<Member>) -> (r: KeySet<u64>)
    ensures
        r@ == segments_on(keys::views(slots@), node_id@, keys::views(ms@)),
{
    let ghost all = keys::views(slots@);
    let ghost mem = keys::views(ms@);
    let ghost none = Seq::<MemberView>::empty();
    let mut r: KeySet<u64> = KeySet::new();
    let mut i: usize = 0;
    assert(r@ =~= segments_on(all.take(0), node_id@, none));
    while i < slots.len()
        invariant
            i <= slots@.len() == all.len(),
            all == keys::views(slots@),
            none == Seq::<MemberView>::empty(),
            r@ == segments_on(all.take(i as int), node_id@, none),
        decreases slots@.len() - i,
    {
        let s = &slots[i];
        let ghost before = r@;
        if s.key.node_id.same(node_id) {
            r.insert(s.key.segment);
        }
        proof {
            let (a, b) = (all.take(i as int), all.take(i + 1));
            assert(all[i as int] == s@);
            assert forall|x: u64| r@.contains(x) == segments_on(b, node_id@, none).contains(x) by {
                if before.contains(x) {
                    let j = choose|j: int| 0 <= j < a.len() && (#[trigger] a[j]).key == (
                        node_id@,
                        x,
                    );
                    assert(b[j] == a[j]);
                }
                if s@.key.0 == node_id@ && x == s@.key.1 {
                    assert(b[i as int] == s@);
                }
                if segments_on(b, node_id@, none).contains(x) {
                    let j = choose|j: int| 0 <= j < b.len() && (#[trigger] b[j]).key == (
                        node_id@,
                        x,
                    );
                    if j < i {
                        assert(a[j] == b[j]);
                    }
                }
            }
            assert(r@ =~= segments_on(b, node_id@, none));
        }
        i += 1;
    }
    assert(all.take(i as int) =~= all);
    let mut j: usize = 0;
    assert(mem.take(0) =~= none);
    while j < ms.len()
        invariant
            j <= ms@.len() == mem.len(),
            mem == keys::views(ms@),
            r@ == segments_on(all, node_id@, mem.take(j as int)),
        decreases ms@.len() - j,
    {
        let ghost before = r@;
        r.insert(ms[j].segment);
        proof {
            let (a, b) = (mem.take(j as int), mem.take(j + 1));
            assert(mem[j as int] == ms@[j as int]@);
            assert forall|x: u64| r@.contains(x) == segments_on(all, node_id@, b).contains(x) by {
                if exists|i: int| 0 <= i < a.len() && (#[trigger] a[i]).segment == x {
                    let i = choose|i: int| 0 <= i < a.len() && (#[trigger] a[i]).segment == x;
                    assert(b[i] == a[i]);
                }
                if x == mem[j as int].segment {
                    assert(b[j as int].segment == x);
                }
                if exists|i: int| 0 <= i < b.len() && (#[trigger] b[i]).segment == x {
                    let i = choose|i: int| 0 <= i < b.len() && (#[trigger] b[i]).segment == x;
                    if i < j {
                        assert(a[i] == b[i]);
                    }
                }
            }
            assert(r@ =~= segments_on(all, node_id@, b));
        }
        j += 1;
    }
    assert(mem.take(j as int) =~= mem);
    r
}

/// Picks where the members are brought.
fn pick_colocate_target(slots: &Vec<Slot>, node_id: &String, ms: &Vec<Member>, slot: u64) -> (r: (
    u64,
    u64,
))
    requires
        ms@.len() > 0,
    ensures
        r == target(keys::views(slots@), node_id@, keys::views(ms@), slot),
{
    let found = collect_node_segments(slots, node_id, ms);
    let segments = sorted_members(&found);
    assert(keys::views(segments@) =~= segments@);
    let first: u64 = ms[0].segment;
    let ghost mem = keys::views(ms@);
    let ghost p = |s: u64| s != first;
    assert(mem[0] == ms@[0]@);
    let mut ordered: Vec<u64> = Vec::new();
    ordered.push(first);
    let mut i: usize = 0;
    assert(ordered@ =~= seq![first] + segments@.take(0).filter(p)) by {
        reveal(Seq::filter);
    }
    while i < segments.len()
        invariant
            i <= segments@.len(),
            p == (|s: u64| s != first),
            ordered@ == seq![first] + segments@.take(i as int).filter(p),
        decreases segments@.len() - i,
    {
        proof {
            reveal(Seq::filter);
            assert(segments@.take(i + 1).drop_last() =~= segments@.take(i as int));
        }
        let ghost before = ordered@;
        if segments[i] != first {
            ordered.push(segments[i]);
            assert(ordered@ =~= seq![first] + segments@.take(i as int).filter(p).push(
                segments@[i as int],
            ));
        }
        i += 1;
    }
    assert(segments@.take(i as int) =~= segments@);
    let limit: u64 = if ms.len() as u64 >= MAX_SLOT_IDX {
        1
    } else {
        MAX_SLOT_IDX - ms.len() as u64 + 1
    };
    let ghost goal = first_place(keys::views(slots@), node_id@, ordered@, mem, slot);
    let mut j: usize = 0;
    assert(ordered@.skip(0) =~= ordered@);
    while j < ordered.len()
        invariant
            j <= ordered@.len(),
            mem == keys::views(ms@),
            limit == tries(mem.len()),
            goal == first_place(keys::views(slots@), node_id@, ordered@, mem, slot),
            goal == first_place(keys::views(slots@), node_id@, ordered@.skip(j as int), mem, slot),
            goal is Some ==> goal->0 == target(keys::views(slots@), node_id@, mem, slot),
        decreases ordered@.len() - j,
    {
        assert(ordered@.skip(j as int).skip(1) =~= ordered@.skip(j + 1));
        assert(ordered@.skip(j as int)[0] == ordered@[j as int]);
        let k = SegmentKey { node_id: node_id.dup(), segment: ordered[j] };
        if let Some(base) = find_fit(slots, &k, ms, slot, limit) {
            return (ordered[j], base);
        }
        j += 1;
    }
    proof {
        assert(segments_on(keys::views(slots@), node_id@, mem).contains(first)) by {
            assert(mem[0].segment == first);
        }
        assert(segments@.to_set().contains(first));
    }
    (add_sat(segments[segments.len() - 1], 1), 0)
}

/// Orders to bring members to a place.
fn push_member_moves(
    out: &mut Vec<DefragMove>,
    p: &Pool,
    node_id: &String,
    ms: &Vec<Member>,
    to: (u64, u64),
    slot: u64,
)
    ensures
        keys::views(final(out)@) == keys::views(old(out)@) + member_moves(
            p@,
            node_id@,
            keys::views(ms@),
            to,
            slot,
            ms@.len() as int,
        ),
{
    let ghost mem = keys::views(ms@);
    let ghost first = keys::views(out@);
    let mut i: usize = 0;
    assert(first + Seq::<DefragMoveView>::empty() =~= first);
    while i < ms.len()
        invariant
            i <= ms@.len() == mem.len(),
            mem == keys::views(ms@),
            keys::views(out@) == first + member_moves(p@, node_id@, mem, to, slot, i as int),
        decreases ms@.len() - i,
    {
        let m = &ms[i];
        assert(mem[i as int] == m@);
        let to_offset: u64 = add_sat(to.1, mul_sat(i as u64, slot));
        if !(m.segment == to.0 && m.offset == to_offset) {
            let ghost before = keys::views(out@);
            let id = match p.by_flat.get(&m.flat) {
                Some(e) => dup_opt(&e.meta.id),
                None => None,
            };
            let x = DefragMove {
                id,
                node_id: node_id.dup(),
                from_segment: m.segment,
                from_offset: m.offset,
                to_segment: to.0,
                to_offset,
                compact_segment: false,
                segment_id: to.0,
            };
            let ghost v = x@;
            out.push(x);
            assert(keys::views(out@) =~= before.push(v));
            assert(first + member_moves(p@, node_id@, mem, to, slot, i + 1) =~= before.push(v));
        }
        i += 1;
    }
}

/// Plans to bring the blocks of chains side by side, each on its node.
fn plan_colocate(p: &Pool, slots: &Vec<Slot>, members: &Vec<Member>, slot: u64) -> (r: Vec<
    DefragMove,
>)
    ensures
        keys::views(r@) == colocate_moves(
            p@,
            keys::views(slots@),
            keys::views(members@),
            listing::listing::<ChainKey>(chains_of(keys::views(members@))),
            slot,
        ),
{
    let found = collect_chains(members);
    let ks = sorted_members(&found);
    let ghost all = keys::views(ks@);
    let mut r: Vec<DefragMove> = Vec::new();
    let mut i: usize = 0;
    assert(all.take(0) =~= Seq::empty());
    assert(keys::views(r@) =~= Seq::empty());
    while i < ks.len()
        invariant
            i <= ks@.len() == all.len(),
            all == keys::views(ks@),
            keys::views(r@) == colocate_moves(
                p@,
                keys::views(slots@),
                keys::views(members@),
                all.take(i as int),
                slot,
            ),
        decreases ks@.len() - i,
    {
        let k = &ks[i];
        let ghost before = keys::views(r@);
        proof {
            assert(all.take(i + 1).drop_last() =~= all.take(i as int));
            assert(all[i as int] == k@);
            assert(before + Seq::<DefragMoveView>::empty() =~= before);
        }
        let ms = collect_chain(members, k);
        assert(keys::views(ms@).len() == ms@.len());
        if ms.len() >= 2 && slot != 0 && !is_adjacent_on_segment(&ms, slot) {
            let to = pick_colocate_target(slots, &k.node_id, &ms, slot);
            push_member_moves(&mut r, p, &k.node_id, &ms, to, slot);
        }
        i += 1;
    }
    assert(all.take(i as int) =~= all);
    r
}

impl Authority {
    /// Plans the layout of a pool: what to compact and what to bring together.
    pub fn plan_defrag(
        &self,
        model_id: &str,
        revision: &str,
        pool_kind: i32,
        mode: DefragMode,
        slot_bytes: u64,
    ) -> (r: Result<Vec<DefragMove>, String>)
        requires
            self.wf(),
        ensures
            match r {
                Ok(moves) => self@.layout_plan(
                    (model_id@, revision@),
                    pool_kind,
                    mode,
                    slot_bytes,
                ) == Ok::<Seq<DefragMoveView>, Seq<char>>(keys::views(moves@)),
                Err(e) => self@.layout_plan((model_id@, revision@), pool_kind, mode, slot_bytes)
                    == Err::<Seq<DefragMoveView>, Seq<char>>(e@),
            },
    {
        let slot: u64 = if slot_bytes == 0 {
            DEFAULT_DEFRAG_SLOT_BYTES
        } else {
            slot_bytes
        };
        let pk: i32 = match resolve_pool_kind(pool_kind) {
            Ok(pk) => pk,
            Err(e) => return Err(e),
        };
        let ns = match self.ns(model_id, revision) {
            Some(ns) => ns,
            None => {
                return Err(
                    joined("plan_defrag: unknown namespace ", ns_text(model_id, revision).as_str()),
                );
            },
        };
        assert(ns@.wf()) by {
            assert(self@.spaces.contains_key((model_id@, revision@)));
        }
        let mut moves: Vec<DefragMove> = Vec::new();
        assert(keys::views(moves@) =~= Seq::empty());
        let p = match ns.pool(pk) {
            Some(p) => p,
            None => return Ok(moves),
        };
        let flats = sorted_keys(&p.by_flat);
        proof {
            let all = keys::views(flats@);
            assert forall|i: int| 0 <= i < flats@.len() implies p@.by_flat.contains_key(
                #[trigger] all[i],
            ) by {
                assert(all.to_set().contains(all[i]));
            }
        }
        let slots = collect_slots(p, &flats);
        if mode != DefragMode::Colocate {
            let mut more = plan_compact(&slots, slot);
            let ghost (a, b) = (moves@, more@);
            moves.append(&mut more);
            assert(keys::views(moves@) =~= keys::views(a) + keys::views(b));
            assert(keys::views(moves@) =~= compact_plan(p@, slot));
        }
        let ghost first = keys::views(moves@);
        if mode != DefragMode::Compact {
            let members = collect_members(p, &flats);
            let mut more = plan_colocate(p, &slots, &members, slot);
            let ghost (a, b) = (moves@, more@);
            moves.append(&mut more);
            assert(keys::views(moves@) =~= keys::views(a) + keys::views(b));
            assert(keys::views(moves@) =~= first + colocate_plan(p@, slot));
        } else {
            assert(first + Seq::<DefragMoveView>::empty() =~= first);
        }
        Ok(moves)
    }

    /// Records new coordinates of a block.
    pub fn relocate_in_view(
        &mut self,
        model_id: &str,
        revision: &str,
        pool_kind: i32,
        flat: &[u8],
        tier: Tier,
        node_id: &str,
        segment_id: u64,
        offset: u64,
    ) -> (r: Result<(), String>)
        requires
            old(self).wf(),
        ensures
            ({
                let l = LocationView {
                    tier: tier.spec_number(),
                    node_id: node_id@,
                    segment_id,
                    offset,
                };
                let (a, e) = old(self)@.relocated_to((model_id@, revision@), pool_kind, flat@, l);
                final(self)@ == a && keys::told(r) == e
            }),
            final(self).wf(),
    {
        let key = NamespaceKey::new(model_id, revision);
        let flat = crate::base::keys::to_bytes(flat);
        let (pk, mut pool) = match self.open_block("relocate", &key, pool_kind, &flat) {
            Ok(x) => x,
            Err(e) => return Err(e),
        };
        let mut meta = match pool.by_flat.get(&flat) {
            Some(e) => e.meta.dup(),
            None => return vstd::pervasive::unreached(),
        };
        meta.locations = place_location(
            &meta.locations,
            Location { tier: tier.number(), node_id: text(node_id), segment_id, offset },
        );
        let event = moved_event(&key, pk, &flat, &meta);
        pool.update(&flat, meta);
        self.put_pool(&key, pk, pool);
        self.note_one(event);
        Ok(())
    }
}

} // verus!
