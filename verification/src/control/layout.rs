//! What layout plans promise: referenced blocks stay where they are, nothing is moved
//! onto another block, and the blocks of a chain come to stand side by side.

use vstd::prelude::*;

use crate::base::listing;
use crate::base::order;
use crate::base::order::Ranked;
use crate::base::queue;
use crate::control::authority;
use crate::control::authority::AuthorityView;
use crate::control::defrag;
use crate::control::defrag::{ChainKey, Member, MemberView, SegmentKey, SlotView};
use crate::control::pool::PoolView;
use crate::proto::{DefragMode, DefragMoveView, LocationView, PoolKind, Tier};

verus! {

/// A copy of the block stands in a slot of L2.
pub open spec fn stands_at(
    p: PoolView,
    flat: Seq<u8>,
    node_id: Seq<char>,
    segment: u64,
    offset: u64,
) -> bool {
    p.by_flat.contains_key(flat) && exists|j: int|
        0 <= j < p.by_flat[flat].meta.locations.len() && is_slot(
            #[trigger] p.by_flat[flat].meta.locations[j],
            node_id,
            segment,
            offset,
        )
}

/// The location is that slot of L2.
pub open spec fn is_slot(l: LocationView, node_id: Seq<char>, segment: u64, offset: u64) -> bool {
    l.tier == Tier::L2.spec_number() && l.node_id == node_id && l.segment_id == segment && l.offset
        == offset
}

/// Records name the blocks that they are kept under.
pub open spec fn named(p: PoolView) -> bool {
    forall|f: Seq<u8>| #[trigger]
        p.by_flat.contains_key(f) ==> defrag::named_hash(p.by_flat[f].meta) == f
}

/// No slot is given to two blocks, and no segment has the last number of all.
pub open spec fn told_apart(p: PoolView) -> bool {
    &&& forall|f: Seq<u8>, g: Seq<u8>, n: Seq<char>, s: u64, o: u64| #[trigger]
        stands_at(p, f, n, s, o) && #[trigger] stands_at(p, g, n, s, o) ==> f == g
    &&& forall|f: Seq<u8>, n: Seq<char>, s: u64, o: u64| #[trigger]
        stands_at(p, f, n, s, o) ==> s < u64::MAX
}

proof fn lemma_slots_at(locations: Seq<LocationView>, flat: Seq<u8>, frozen: bool)
    ensures
        forall|j: int|
            0 <= j < locations.len() && (#[trigger] locations[j]).tier == Tier::L2.spec_number()
                ==> defrag::slots_at(locations, flat, frozen).contains(
                SlotView {
                    key: (locations[j].node_id, locations[j].segment_id),
                    offset: locations[j].offset,
                    flat,
                    frozen,
                },
            ),
        forall|s: SlotView| #[trigger]
            defrag::slots_at(locations, flat, frozen).contains(s) ==> s.flat == flat && s.frozen
                == frozen && exists|j: int|
                0 <= j < locations.len() && is_slot(
                    #[trigger] locations[j],
                    s.key.0,
                    s.key.1,
                    s.offset,
                ),
    decreases locations.len(),
{
    let all = defrag::slots_at(locations, flat, frozen);
    if locations.len() > 0 {
        let init = locations.drop_last();
        let rest = defrag::slots_at(init, flat, frozen);
        lemma_slots_at(init, flat, frozen);
        let l = locations.last();
        let last = SlotView { key: (l.node_id, l.segment_id), offset: l.offset, flat, frozen };
        assert forall|j: int|
            0 <= j < locations.len() && (#[trigger] locations[j]).tier
                == Tier::L2.spec_number() implies all.contains(
            SlotView {
                key: (locations[j].node_id, locations[j].segment_id),
                offset: locations[j].offset,
                flat,
                frozen,
            },
        ) by {
            if j < init.len() {
                assert(init[j] == locations[j]);
                let s = SlotView {
                    key: (locations[j].node_id, locations[j].segment_id),
                    offset: locations[j].offset,
                    flat,
                    frozen,
                };
                let i = choose|i: int| 0 <= i < rest.len() && rest[i] == s;
                assert(all[i] == s);
            } else {
                assert(all[all.len() - 1] == last);
            }
        }
        assert forall|s: SlotView| #[trigger] all.contains(s) implies s.flat == flat && s.frozen
            == frozen && exists|j: int|
            0 <= j < locations.len() && is_slot(
                #[trigger] locations[j],
                s.key.0,
                s.key.1,
                s.offset,
            ) by {
            let i = choose|i: int| 0 <= i < all.len() && all[i] == s;
            if i < rest.len() {
                assert(rest[i] == s);
                assert(rest.contains(s));
                let j = choose|j: int|
                    0 <= j < init.len() && is_slot(
                        #[trigger] init[j],
                        s.key.0,
                        s.key.1,
                        s.offset,
                    );
                assert(is_slot(locations[j], s.key.0, s.key.1, s.offset));
            } else {
                assert(is_slot(locations[locations.len() - 1], s.key.0, s.key.1, s.offset));
            }
        }
    }
}

/// The slots of some blocks are where copies of them stand.
proof fn lemma_slots_of(p: PoolView, flats: Seq<Seq<u8>>)
    requires
        forall|i: int| 0 <= i < flats.len() ==> p.by_flat.contains_key(#[trigger] flats[i]),
    ensures
        forall|f: Seq<u8>, n: Seq<char>, s: u64, o: u64|
            flats.contains(f) && #[trigger] stands_at(p, f, n, s, o) ==> defrag::slots_of(
                p,
                flats,
            ).contains(
                SlotView {
                    key: (n, s),
                    offset: o,
                    flat: defrag::named_hash(p.by_flat[f].meta),
                    frozen: p.holds(p.by_flat[f].seq),
                },
            ),
        forall|x: SlotView| #[trigger]
            defrag::slots_of(p, flats).contains(x) ==> exists|f: Seq<u8>|
                flats.contains(f) && #[trigger] stands_at(p, f, x.key.0, x.key.1, x.offset)
                    && x.flat == defrag::named_hash(p.by_flat[f].meta),
    decreases flats.len(),
{
    let all = defrag::slots_of(p, flats);
    if flats.len() > 0 {
        let init = flats.drop_last();
        let g = flats.last();
        let e = p.by_flat[g];
        let front = defrag::slots_of(p, init);
        let back = defrag::slots_at(e.meta.locations, defrag::named_hash(e.meta), p.holds(e.seq));
        assert forall|i: int| 0 <= i < init.len() implies p.by_flat.contains_key(
            #[trigger] init[i],
        ) by {
            assert(init[i] == flats[i]);
        }
        assert(flats[flats.len() - 1] == g);
        lemma_slots_of(p, init);
        lemma_slots_at(e.meta.locations, defrag::named_hash(e.meta), p.holds(e.seq));
        assert forall|f: Seq<u8>, n: Seq<char>, s: u64, o: u64|
            flats.contains(f) && #[trigger] stands_at(p, f, n, s, o) implies all.contains(
            SlotView {
                key: (n, s),
                offset: o,
                flat: defrag::named_hash(p.by_flat[f].meta),
                frozen: p.holds(p.by_flat[f].seq),
            },
        ) by {
            let x = SlotView {
                key: (n, s),
                offset: o,
                flat: defrag::named_hash(p.by_flat[f].meta),
                frozen: p.holds(p.by_flat[f].seq),
            };
            let i = choose|i: int| 0 <= i < flats.len() && flats[i] == f;
            if i < init.len() {
                assert(init[i] == f);
                assert(front.contains(x));
                let a = choose|a: int| 0 <= a < front.len() && front[a] == x;
                assert(all[a] == x);
            } else {
                let j = choose|j: int|
                    0 <= j < e.meta.locations.len() && is_slot(
                        #[trigger] e.meta.locations[j],
                        n,
                        s,
                        o,
                    );
                assert(back.contains(x));
                let a = choose|a: int| 0 <= a < back.len() && back[a] == x;
                assert(all[front.len() + a] == x);
            }
        }
        assert forall|x: SlotView| #[trigger] all.contains(x) implies exists|f: Seq<u8>|
            flats.contains(f) && #[trigger] stands_at(p, f, x.key.0, x.key.1, x.offset) && x.flat
                == defrag::named_hash(p.by_flat[f].meta) by {
            let a = choose|a: int| 0 <= a < all.len() && all[a] == x;
            if a < front.len() {
                assert(front[a] == x);
                assert(front.contains(x));
                let f = choose|f: Seq<u8>|
                    init.contains(f) && #[trigger] stands_at(p, f, x.key.0, x.key.1, x.offset)
                        && x.flat == defrag::named_hash(p.by_flat[f].meta);
                let i = choose|i: int| 0 <= i < init.len() && init[i] == f;
                assert(flats[i] == f);
            } else {
                assert(back[a - front.len()] == x);
                assert(back.contains(x));
                assert(flats.contains(g));
                assert(stands_at(p, g, x.key.0, x.key.1, x.offset));
            }
        }
    }
}

/// The blocks of a pool are listed, and nothing else.
proof fn lemma_flats(p: PoolView)
    requires
        p.by_flat.dom().finite(),
    ensures
        forall|f: Seq<u8>| #[trigger]
            authority::flats_of(Some(p)).contains(f) == p.by_flat.contains_key(f),
        forall|i: int|
            0 <= i < authority::flats_of(Some(p)).len() ==> p.by_flat.contains_key(
                #[trigger] authority::flats_of(Some(p))[i],
            ),
{
    let flats = authority::flats_of(Some(p));
    listing::listing_lists::<Vec<u8>>(p.by_flat.dom());
    assert forall|f: Seq<u8>| #[trigger] flats.contains(f) == p.by_flat.contains_key(f) by {
        assert(flats.to_set().contains(f) == flats.contains(f));
    }
    assert forall|i: int| 0 <= i < flats.len() implies p.by_flat.contains_key(
        #[trigger] flats[i],
    ) by {
        assert(flats.contains(flats[i]));
    }
}

proof fn lemma_compact_move(
    slots: Seq<SlotView>,
    ks: Seq<(Seq<char>, u64)>,
    slot: u64,
    i: int,
) -> (k: (Seq<char>, u64))
    requires
        0 <= i < defrag::compact_moves(slots, ks, slot).len(),
    ensures
        defrag::compactable(slots, k, slot),
        defrag::compact_moves(slots, ks, slot)[i].node_id == k.0,
        defrag::compact_moves(slots, ks, slot)[i].segment_id == k.1,
        defrag::compact_moves(slots, ks, slot)[i].compact_segment,
    decreases ks.len(),
{
    let rest = defrag::compact_moves(slots, ks.drop_last(), slot);
    if i < rest.len() {
        lemma_compact_move(slots, ks.drop_last(), slot, i)
    } else {
        ks.last()
    }
}

/// A segment that is ordered to be compacted holds no block that a reference holds.
pub proof fn compaction_spares_referenced_blocks(
    p: PoolView,
    slot: u64,
    i: int,
    flat: Seq<u8>,
    offset: u64,
)
    requires
        p.by_flat.dom().finite(),
        0 <= i < defrag::compact_plan(p, slot).len(),
        stands_at(
            p,
            flat,
            defrag::compact_plan(p, slot)[i].node_id,
            defrag::compact_plan(p, slot)[i].segment_id,
            offset,
        ),
    ensures
        defrag::compact_plan(p, slot)[i].compact_segment,
        !p.holds(p.by_flat[flat].seq),
{
    let flats = authority::flats_of(Some(p));
    let slots = defrag::slots_of(p, flats);
    let ks = listing::listing::<SegmentKey>(defrag::movable_segments(slots));
    lemma_flats(p);
    lemma_slots_of(p, flats);
    let k = lemma_compact_move(slots, ks, slot, i);
    let x = SlotView {
        key: k,
        offset,
        flat: defrag::named_hash(p.by_flat[flat].meta),
        frozen: p.holds(p.by_flat[flat].seq),
    };
    assert(flats.contains(flat));
    assert(slots.contains(x));
    let a = choose|a: int| 0 <= a < slots.len() && slots[a] == x;
    assert(slots[a].key == k);
}

proof fn lemma_members(p: PoolView, flats: Seq<Seq<u8>>, m: MemberView) -> (f: Seq<u8>)
    requires
        defrag::members_of(p, flats).contains(m),
    ensures
        flats.contains(f),
        defrag::member_of(p, p.by_flat[f]) == Some(m),
    decreases flats.len(),
{
    let all = defrag::members_of(p, flats);
    if flats.len() == 0 {
        flats.last()
    } else {
        let init = flats.drop_last();
        let rest = defrag::members_of(p, init);
        let i = choose|i: int| 0 <= i < all.len() && all[i] == m;
        if i < rest.len() {
            assert(rest[i] == m);
            let f = lemma_members(p, init, m);
            let j = choose|j: int| 0 <= j < init.len() && init[j] == f;
            assert(flats[j] == f);
            f
        } else {
            assert(flats[flats.len() - 1] == flats.last());
            flats.last()
        }
    }
}

proof fn lemma_first_l2(locations: Seq<LocationView>, i: int)
    requires
        0 <= i <= locations.len(),
    ensures
        i <= defrag::first_l2(locations, i) <= locations.len(),
        defrag::first_l2(locations, i) < locations.len() ==> locations[defrag::first_l2(
            locations,
            i,
        )].tier == Tier::L2.spec_number(),
    decreases locations.len() - i,
{
    if i < locations.len() && locations[i].tier != Tier::L2.spec_number() {
        lemma_first_l2(locations, i + 1);
    }
}

/// The members of a chain are members on its node.
proof fn lemma_chain_members(members: Seq<MemberView>, k: (Seq<u8>, Seq<char>), n: int)
    requires
        0 <= n < defrag::chain_members(members, k).len(),
    ensures
        members.contains(defrag::chain_members(members, k)[n]),
        defrag::chain_members(members, k)[n].key == k,
{
    broadcast use vstd::seq_lib::group_to_multiset_ensures;

    let picked = members.filter(|m: MemberView| m.key == k);
    let ms = defrag::chain_members(members, k);
    order::ranked_keeps_values::<Member>(picked);
    assert(ms.contains(ms[n]));
    assert(ms.to_multiset().count(ms[n]) > 0);
    assert(picked.to_multiset().count(ms[n]) > 0);
    queue::lemma_filter(members, |m: MemberView| m.key == k);
    assert(picked.contains(ms[n]));
}

/// The move of the `n`-th member of a chain.
spec fn move_of(
    p: PoolView,
    node_id: Seq<char>,
    ms: Seq<MemberView>,
    to: (u64, u64),
    slot: u64,
    n: int,
) -> DefragMoveView {
    DefragMoveView {
        id: if p.by_flat.contains_key(ms[n].flat) {
            p.by_flat[ms[n].flat].meta.id
        } else {
            None
        },
        node_id,
        from_segment: ms[n].segment,
        from_offset: ms[n].offset,
        to_segment: to.0,
        to_offset: defrag::offset_at(to.1, n, slot),
        compact_segment: false,
        segment_id: to.0,
    }
}

proof fn lemma_member_move(
    p: PoolView,
    node_id: Seq<char>,
    ms: Seq<MemberView>,
    to: (u64, u64),
    slot: u64,
    n: int,
    i: int,
) -> (m: int)
    requires
        0 <= i < defrag::member_moves(p, node_id, ms, to, slot, n).len(),
    ensures
        0 <= m < n,
        defrag::member_moves(p, node_id, ms, to, slot, n)[i] == move_of(
            p,
            node_id,
            ms,
            to,
            slot,
            m,
        ),
    decreases n,
{
    if n <= 0 {
        0
    } else {
        let rest = defrag::member_moves(p, node_id, ms, to, slot, n - 1);
        if i < rest.len() {
            lemma_member_move(p, node_id, ms, to, slot, n - 1, i)
        } else {
            n - 1
        }
    }
}

/// A member that is not in its place is ordered there.
proof fn lemma_member_moved(
    p: PoolView,
    node_id: Seq<char>,
    ms: Seq<MemberView>,
    to: (u64, u64),
    slot: u64,
    n: int,
    m: int,
)
    requires
        0 <= m < n,
    ensures
        (ms[m].segment == to.0 && ms[m].offset == defrag::offset_at(to.1, m, slot))
            || defrag::member_moves(p, node_id, ms, to, slot, n).contains(
            move_of(p, node_id, ms, to, slot, m),
        ),
    decreases n,
{
    let all = defrag::member_moves(p, node_id, ms, to, slot, n);
    if !(ms[m].segment == to.0 && ms[m].offset == defrag::offset_at(to.1, m, slot)) {
        let x = move_of(p, node_id, ms, to, slot, m);
        if m < n - 1 {
            lemma_member_moved(p, node_id, ms, to, slot, n - 1, m);
            let rest = defrag::member_moves(p, node_id, ms, to, slot, n - 1);
            let i = choose|i: int| 0 <= i < rest.len() && rest[i] == x;
            assert(all[i] == x);
        } else {
            assert(all[all.len() - 1] == x);
        }
    }
}

/// Every move of a plan moves a member of a chain to that chain's place.
proof fn lemma_colocate_move(
    p: PoolView,
    slots: Seq<SlotView>,
    members: Seq<MemberView>,
    ks: Seq<(Seq<u8>, Seq<char>)>,
    slot: u64,
    i: int,
) -> (r: ((Seq<u8>, Seq<char>), int))
    requires
        0 <= i < defrag::colocate_moves(p, slots, members, ks, slot).len(),
    ensures
        ({
            let ms = defrag::chain_members(members, r.0);
            &&& slot > 0
            &&& 0 <= r.1 < ms.len()
            &&& defrag::colocate_moves(p, slots, members, ks, slot)[i] == move_of(
                p,
                r.0.1,
                ms,
                defrag::target(slots, r.0.1, ms, slot),
                slot,
                r.1,
            )
        }),
    decreases ks.len(),
{
    let rest = defrag::colocate_moves(p, slots, members, ks.drop_last(), slot);
    if i < rest.len() {
        lemma_colocate_move(p, slots, members, ks.drop_last(), slot, i)
    } else {
        let k = ks.last();
        let ms = defrag::chain_members(members, k);
        let to = defrag::target(slots, k.1, ms, slot);
        assert(0 <= i - rest.len() < defrag::chain_moves(p, slots, members, k, slot).len());
        let m = lemma_member_move(p, k.1, ms, to, slot, ms.len() as int, i - rest.len());
        (k, m)
    }
}

/// Every move that brings a chain together starts where a block stands that no
/// reference holds, and stays on that block's node.
pub proof fn colocation_moves_unreferenced_blocks(p: PoolView, slot: u64, i: int)
    requires
        p.by_flat.dom().finite(),
        named(p),
        0 <= i < defrag::colocate_plan(p, slot).len(),
    ensures
        !defrag::colocate_plan(p, slot)[i].compact_segment,
        exists|f: Seq<u8>|
            {
                &&& #[trigger] stands_at(
                    p,
                    f,
                    defrag::colocate_plan(p, slot)[i].node_id,
                    defrag::colocate_plan(p, slot)[i].from_segment,
                    defrag::colocate_plan(p, slot)[i].from_offset,
                )
                &&& !p.holds(p.by_flat[f].seq)
                &&& p.by_flat[f].meta.id == defrag::colocate_plan(p, slot)[i].id
            },
{
    let flats = authority::flats_of(Some(p));
    let slots = defrag::slots_of(p, flats);
    let members = defrag::members_of(p, flats);
    let ks = listing::listing::<ChainKey>(defrag::chains_of(members));
    lemma_flats(p);
    let (k, n) = lemma_colocate_move(p, slots, members, ks, slot, i);
    lemma_chain_members(members, k, n);
    let m = defrag::chain_members(members, k)[n];
    let f = lemma_members(p, flats, m);
    lemma_first_l2(p.by_flat[f].meta.locations, 0);
    let at = defrag::first_l2(p.by_flat[f].meta.locations, 0);
    assert(p.by_flat.contains_key(f));
    assert(is_slot(p.by_flat[f].meta.locations[at], k.1, m.segment, m.offset));
    let x = defrag::colocate_plan(p, slot)[i];
    assert(stands_at(p, f, x.node_id, x.from_segment, x.from_offset));
    assert(m.flat == f);
    assert(p.by_flat[f].meta.id == x.id);
}

proof fn lemma_first_fit(
    slots: Seq<SlotView>,
    k: (Seq<char>, u64),
    ms: Seq<MemberView>,
    slot: u64,
    i: u64,
    limit: u64,
)
    requires
        defrag::first_fit(slots, k, ms, slot, i, limit) is Some,
    ensures
        defrag::fits(slots, k, defrag::first_fit(slots, k, ms, slot, i, limit)->0, ms, slot),
    decreases limit - i,
{
    if i < limit && !defrag::fits(slots, k, defrag::sat_mul(i, slot), ms, slot) {
        lemma_first_fit(slots, k, ms, slot, (i + 1) as u64, limit);
    }
}

proof fn lemma_first_place(
    slots: Seq<SlotView>,
    node_id: Seq<char>,
    segments: Seq<u64>,
    ms: Seq<MemberView>,
    slot: u64,
)
    requires
        defrag::first_place(slots, node_id, segments, ms, slot) is Some,
    ensures
        ({
            let to = defrag::first_place(slots, node_id, segments, ms, slot)->0;
            defrag::fits(slots, (node_id, to.0), to.1, ms, slot)
        }),
    decreases segments.len(),
{
    if segments.len() > 0 {
        match defrag::first_fit(slots, (node_id, segments[0]), ms, slot, 0, defrag::tries(ms.len())) {
            Some(_) => {
                lemma_first_fit(
                    slots,
                    (node_id, segments[0]),
                    ms,
                    slot,
                    0,
                    defrag::tries(ms.len()),
                );
            },
            None => {
                lemma_first_place(slots, node_id, segments.skip(1), ms, slot);
            },
        }
    }
}

proof fn lemma_occupant(slots: Seq<SlotView>, x: SlotView) -> (y: SlotView)
    requires
        slots.contains(x),
    ensures
        slots.contains(y),
        y.key == x.key,
        y.offset == x.offset,
        defrag::occupant(slots, x.key, x.offset) == Some(y.flat),
    decreases slots.len(),
{
    if slots.len() == 0 {
        x
    } else if slots.last().key == x.key && slots.last().offset == x.offset {
        assert(slots[slots.len() - 1] == slots.last());
        slots.last()
    } else {
        let init = slots.drop_last();
        let i = choose|i: int| 0 <= i < slots.len() && slots[i] == x;
        assert(init[i] == x);
        let y = lemma_occupant(init, x);
        let j = choose|j: int| 0 <= j < init.len() && init[j] == y;
        assert(slots[j] == y);
        y
    }
}

/// A new segment comes after all that a node has.
proof fn lemma_new_segment(slots: Seq<SlotView>, node_id: Seq<char>, ms: Seq<MemberView>, i: int)
    requires
        ms.len() > 0,
        0 <= i < slots.len(),
        slots[i].key.0 == node_id,
    ensures
        slots[i].key.1 <= listing::listing::<u64>(
            defrag::segments_on(slots, node_id, ms),
        ).last(),
{
    let d = defrag::segments_on(slots, node_id, ms);
    let a = slots.map_values(|s: SlotView| s.key.1);
    let b = ms.map_values(|m: MemberView| m.segment);
    vstd::seq_lib::seq_to_set_is_finite(a);
    vstd::seq_lib::seq_to_set_is_finite(b);
    assert forall|s: u64| #[trigger] d.contains(s) implies a.to_set().union(b.to_set()).contains(
        s,
    ) by {
        if exists|j: int| 0 <= j < slots.len() && (#[trigger] slots[j]).key == (node_id, s) {
            let j = choose|j: int| 0 <= j < slots.len() && (#[trigger] slots[j]).key == (node_id, s);
            assert(a[j] == s);
        } else {
            let j = choose|j: int| 0 <= j < ms.len() && (#[trigger] ms[j]).segment == s;
            assert(b[j] == s);
        }
    }
    vstd::set_lib::lemma_set_subset_finite(a.to_set().union(b.to_set()), d);
    listing::listing_lists::<u64>(d);
    let l = listing::listing::<u64>(d);
    let s = slots[i].key.1;
    assert(slots[i].key == (node_id, s));
    assert(d.contains(s));
    assert(l.to_set().contains(s));
    let j = choose|j: int| 0 <= j < l.len() && l[j] == s;
    if j < l.len() - 1 {
        assert(u64::ranks(l[j], l[l.len() - 1]));
    }
}

/// A move that brings a chain together goes to a slot that is free, or that the block
/// itself already has.
pub proof fn colocation_targets_are_free(p: PoolView, slot: u64, i: int, flat: Seq<u8>)
    requires
        p.by_flat.dom().finite(),
        named(p),
        told_apart(p),
        0 <= i < defrag::colocate_plan(p, slot).len(),
        stands_at(
            p,
            flat,
            defrag::colocate_plan(p, slot)[i].node_id,
            defrag::colocate_plan(p, slot)[i].to_segment,
            defrag::colocate_plan(p, slot)[i].to_offset,
        ),
    ensures
        p.by_flat[flat].meta.id == defrag::colocate_plan(p, slot)[i].id,
        stands_at(
            p,
            flat,
            defrag::colocate_plan(p, slot)[i].node_id,
            defrag::colocate_plan(p, slot)[i].from_segment,
            defrag::colocate_plan(p, slot)[i].from_offset,
        ),
{
    let flats = authority::flats_of(Some(p));
    let slots = defrag::slots_of(p, flats);
    let members = defrag::members_of(p, flats);
    let ks = listing::listing::<ChainKey>(defrag::chains_of(members));
    lemma_flats(p);
    lemma_slots_of(p, flats);
    let (k, n) = lemma_colocate_move(p, slots, members, ks, slot, i);
    lemma_chain_members(members, k, n);
    let ms = defrag::chain_members(members, k);
    let to = defrag::target(slots, k.1, ms, slot);
    let offset = defrag::offset_at(to.1, n, slot);
    let x = SlotView {
        key: (k.1, to.0),
        offset,
        flat: defrag::named_hash(p.by_flat[flat].meta),
        frozen: p.holds(p.by_flat[flat].seq),
    };
    assert(flats.contains(flat));
    assert(stands_at(p, flat, k.1, to.0, offset));
    assert(slots.contains(x));
    let segments = listing::listing::<u64>(defrag::segments_on(slots, k.1, ms));
    let first = ms[0].segment;
    let tried = seq![first] + segments.filter(|s: u64| s != first);
    match defrag::first_place(slots, k.1, tried, ms, slot) {
        Some(place) => {
            lemma_first_place(slots, k.1, tried, ms, slot);
            assert(defrag::free_for(slots, (k.1, to.0), offset, ms[n].flat));
            let y = lemma_occupant(slots, x);
            let g = choose|g: Seq<u8>|
                flats.contains(g) && #[trigger] stands_at(p, g, y.key.0, y.key.1, y.offset)
                    && y.flat == defrag::named_hash(p.by_flat[g].meta);
            assert(g == flat);
            let f = lemma_members(p, flats, ms[n]);
            assert(p.by_flat.contains_key(f));
            assert(ms[n].flat == f);
            assert(y.flat == flat);
            lemma_first_l2(p.by_flat[f].meta.locations, 0);
            let at = defrag::first_l2(p.by_flat[f].meta.locations, 0);
            assert(is_slot(p.by_flat[f].meta.locations[at], k.1, ms[n].segment, ms[n].offset));
        },
        None => {
            let a = choose|a: int| 0 <= a < slots.len() && slots[a] == x;
            lemma_new_segment(slots, k.1, ms, a);
            // The last segment of the node is below the last number of all.
            assert(to.0 < u64::MAX);
            assert(false);
        },
    }
}

proof fn lemma_chain_planned(
    p: PoolView,
    slots: Seq<SlotView>,
    members: Seq<MemberView>,
    ks: Seq<(Seq<u8>, Seq<char>)>,
    slot: u64,
    k: (Seq<u8>, Seq<char>),
    x: DefragMoveView,
)
    requires
        ks.contains(k),
        defrag::chain_moves(p, slots, members, k, slot).contains(x),
    ensures
        defrag::colocate_moves(p, slots, members, ks, slot).contains(x),
    decreases ks.len(),
{
    let all = defrag::colocate_moves(p, slots, members, ks, slot);
    let init = ks.drop_last();
    let front = defrag::colocate_moves(p, slots, members, init, slot);
    let i = choose|i: int| 0 <= i < ks.len() && ks[i] == k;
    if i < init.len() {
        assert(init[i] == k);
        lemma_chain_planned(p, slots, members, init, slot, k, x);
        let j = choose|j: int| 0 <= j < front.len() && front[j] == x;
        assert(all[j] == x);
    } else {
        let back = defrag::chain_moves(p, slots, members, k, slot);
        let j = choose|j: int| 0 <= j < back.len() && back[j] == x;
        assert(all[front.len() + j] == x);
    }
}

/// A member of a chain is in its place, or a plan brings it there.
pub open spec fn brought(
    plan: Seq<DefragMoveView>,
    node_id: Seq<char>,
    m: MemberView,
    to: (u64, u64),
) -> bool {
    (m.segment == to.0 && m.offset == to.1) || exists|i: int|
        0 <= i < plan.len() && {
            let x = #[trigger] plan[i];
            &&& x.node_id == node_id
            &&& x.from_segment == m.segment
            &&& x.from_offset == m.offset
            &&& x.to_segment == to.0
            &&& x.to_offset == to.1
        }
}

/// A plan has members stand side by side from an offset of a segment on.
pub open spec fn together(
    plan: Seq<DefragMoveView>,
    node_id: Seq<char>,
    ms: Seq<MemberView>,
    segment: u64,
    base: u64,
    slot: u64,
) -> bool {
    forall|n: int|
        0 <= n < ms.len() ==> brought(
            plan,
            node_id,
            #[trigger] ms[n],
            (segment, defrag::offset_at(base, n, slot)),
        )
}

/// After its moves the members of a chain on a node stand in one segment, in order
/// from the root on and a slot apart.
pub proof fn chains_come_together(p: PoolView, slot: u64, k: (Seq<u8>, Seq<char>))
    requires
        p.by_flat.dom().finite(),
        slot > 0,
    ensures
        ({
            let members = defrag::members_of(p, authority::flats_of(Some(p)));
            let ms = defrag::chain_members(members, k);
            exists|segment: u64, base: u64| #[trigger]
                together(defrag::colocate_plan(p, slot), k.1, ms, segment, base, slot)
        }),
{
    let flats = authority::flats_of(Some(p));
    let slots = defrag::slots_of(p, flats);
    let members = defrag::members_of(p, flats);
    let d = defrag::chains_of(members);
    let ks = listing::listing::<ChainKey>(d);
    let ms = defrag::chain_members(members, k);
    let plan = defrag::colocate_plan(p, slot);
    if ms.len() < 2 || defrag::adjacent(ms, slot) {
        assert(0 * slot == 0) by (nonlinear_arith);
        assert(together(plan, k.1, ms, ms[0].segment, ms[0].offset, slot));
    } else {
        let to = defrag::target(slots, k.1, ms, slot);
        lemma_chain_members(members, k, 0);
        let at = members.map_values(|m: MemberView| m.key);
        let j = choose|j: int| 0 <= j < members.len() && members[j] == ms[0];
        assert(at[j] == k);
        assert(at.to_set().contains(k));
        vstd::seq_lib::seq_to_set_is_finite(at);
        listing::listing_lists::<ChainKey>(d);
        assert(ks.to_set().contains(k));
        assert(ks.contains(k));
        let own = defrag::chain_moves(p, slots, members, k, slot);
        assert forall|n: int| 0 <= n < ms.len() implies brought(
            plan,
            k.1,
            #[trigger] ms[n],
            (to.0, defrag::offset_at(to.1, n, slot)),
        ) by {
            lemma_member_moved(p, k.1, ms, to, slot, ms.len() as int, n);
            if !(ms[n].segment == to.0 && ms[n].offset == defrag::offset_at(to.1, n, slot)) {
                let x = move_of(p, k.1, ms, to, slot, n);
                assert(own.contains(x));
                lemma_chain_planned(p, slots, members, ks, slot, k, x);
                let i = choose|i: int| 0 <= i < plan.len() && plan[i] == x;
                assert(plan[i].node_id == k.1);
            }
        }
        assert(together(plan, k.1, ms, to.0, to.1, slot));
    }
}

/// A block that no reference holds stands in the slot.
pub open spec fn loose_at(p: PoolView, node_id: Seq<char>, segment: u64, offset: u64) -> bool {
    exists|f: Seq<u8>| #[trigger]
        stands_at(p, f, node_id, segment, offset) && !p.holds(p.by_flat[f].seq)
}

/// The order to pack a segment.
pub open spec fn pack_order(node_id: Seq<char>, segment: u64) -> DefragMoveView {
    DefragMoveView {
        id: None,
        node_id,
        from_segment: segment,
        from_offset: 0,
        to_segment: segment,
        to_offset: 0,
        compact_segment: true,
        segment_id: segment,
    }
}

proof fn lemma_order_planned(
    slots: Seq<SlotView>,
    ks: Seq<(Seq<char>, u64)>,
    slot: u64,
    k: (Seq<char>, u64),
)
    requires
        ks.contains(k),
        defrag::compactable(slots, k, slot),
    ensures
        defrag::compact_moves(slots, ks, slot).contains(pack_order(k.0, k.1)),
    decreases ks.len(),
{
    let init = ks.drop_last();
    let rest = defrag::compact_moves(slots, init, slot);
    let all = defrag::compact_moves(slots, ks, slot);
    let i = choose|i: int| 0 <= i < ks.len() && ks[i] == k;
    if i < init.len() {
        assert(init[i] == k);
        lemma_order_planned(slots, init, slot, k);
        let j = choose|j: int| 0 <= j < rest.len() && rest[j] == pack_order(k.0, k.1);
        assert(all[j] == rest[j]);
    } else {
        assert(all[rest.len() as int] == pack_order(k.0, k.1));
    }
}

proof fn lemma_finite(slots: Seq<SlotView>, k: (Seq<char>, u64))
    ensures
        defrag::offsets_in(slots, k).finite(),
        defrag::movable_segments(slots).finite(),
{
    let at = slots.map_values(|s: SlotView| s.offset);
    vstd::seq_lib::seq_to_set_is_finite(at);
    assert(defrag::offsets_in(slots, k).subset_of(at.to_set())) by {
        assert forall|o: u64| defrag::offsets_in(slots, k).contains(o) implies at.to_set().contains(
            o,
        ) by {
            let i = choose|i: int|
                0 <= i < slots.len() && (#[trigger] slots[i]).key == k && !slots[i].frozen
                    && slots[i].offset == o;
            assert(at[i] == o);
        }
    }
    vstd::set_lib::lemma_set_subset_finite(at.to_set(), defrag::offsets_in(slots, k));
    let on = slots.map_values(|s: SlotView| s.key);
    vstd::seq_lib::seq_to_set_is_finite(on);
    assert(defrag::movable_segments(slots).subset_of(on.to_set())) by {
        assert forall|x: (Seq<char>, u64)|
            defrag::movable_segments(slots).contains(x) implies on.to_set().contains(x) by {
            let i = choose|i: int|
                0 <= i < slots.len() && (#[trigger] slots[i]).key == x && !slots[i].frozen;
            assert(on[i] == x);
        }
    }
    vstd::set_lib::lemma_set_subset_finite(on.to_set(), defrag::movable_segments(slots));
}

/// The slots of a pool.
spec fn all_slots(p: PoolView) -> Seq<SlotView> {
    defrag::slots_of(p, authority::flats_of(Some(p)))
}

/// A block in a slot of L2 is listed there.
proof fn lemma_slot_there(p: PoolView, f: Seq<u8>, k: (Seq<char>, u64), o: u64) -> (i: int)
    requires
        p.by_flat.dom().finite(),
        stands_at(p, f, k.0, k.1, o),
    ensures
        0 <= i < all_slots(p).len(),
        all_slots(p)[i].key == k,
        all_slots(p)[i].offset == o,
        all_slots(p)[i].frozen == p.holds(p.by_flat[f].seq),
{
    let flats = authority::flats_of(Some(p));
    lemma_flats(p);
    assert(flats.contains(f));
    lemma_slots_of(p, flats);
    let x = SlotView {
        key: k,
        offset: o,
        flat: defrag::named_hash(p.by_flat[f].meta),
        frozen: p.holds(p.by_flat[f].seq),
    };
    assert(all_slots(p).contains(x));
    choose|i: int| 0 <= i < all_slots(p).len() && all_slots(p)[i] == x
}

/// A listed slot is that of a block.
proof fn lemma_slot_from(p: PoolView, i: int) -> (f: Seq<u8>)
    requires
        p.by_flat.dom().finite(),
        0 <= i < all_slots(p).len(),
    ensures
        stands_at(p, f, all_slots(p)[i].key.0, all_slots(p)[i].key.1, all_slots(p)[i].offset),
        all_slots(p)[i].frozen == p.holds(p.by_flat[f].seq),
{
    let flats = authority::flats_of(Some(p));
    let x = all_slots(p)[i];
    lemma_flats(p);
    lemma_slots_frozen(p, flats);
    assert(all_slots(p).contains(x));
    lemma_slot_block(p, flats, x)
}

/// The offsets of a segment that may be moved are those of loose blocks.
proof fn lemma_offset_loose(p: PoolView, k: (Seq<char>, u64), o: u64)
    requires
        p.by_flat.dom().finite(),
    ensures
        defrag::offsets_in(all_slots(p), k).contains(o) == loose_at(p, k.0, k.1, o),
        loose_at(p, k.0, k.1, o) ==> defrag::movable_segments(all_slots(p)).contains(k),
{
    let slots = all_slots(p);
    if defrag::offsets_in(slots, k).contains(o) {
        let i = choose|i: int|
            0 <= i < slots.len() && (#[trigger] slots[i]).key == k && !slots[i].frozen
                && slots[i].offset == o;
        let f = lemma_slot_from(p, i);
        assert(stands_at(p, f, k.0, k.1, o));
    }
    if loose_at(p, k.0, k.1, o) {
        let f = choose|f: Seq<u8>| #[trigger]
            stands_at(p, f, k.0, k.1, o) && !p.holds(p.by_flat[f].seq);
        let i = lemma_slot_there(p, f, k, o);
        assert(slots[i].key == k);
    }
}

/// Slots say of their blocks whether a reference holds them.
spec fn slot_true(p: PoolView, flats: Seq<Seq<u8>>, x: SlotView) -> bool {
    exists|f: Seq<u8>|
        flats.contains(f) && #[trigger] stands_at(p, f, x.key.0, x.key.1, x.offset) && x.frozen
            == p.holds(p.by_flat[f].seq)
}

proof fn lemma_slot_block(p: PoolView, flats: Seq<Seq<u8>>, x: SlotView) -> (f: Seq<u8>)
    requires
        slot_true(p, flats, x),
    ensures
        stands_at(p, f, x.key.0, x.key.1, x.offset),
        x.frozen == p.holds(p.by_flat[f].seq),
{
    choose|f: Seq<u8>|
        flats.contains(f) && #[trigger] stands_at(p, f, x.key.0, x.key.1, x.offset) && x.frozen
            == p.holds(p.by_flat[f].seq)
}

proof fn lemma_slots_frozen(p: PoolView, flats: Seq<Seq<u8>>)
    requires
        forall|i: int| 0 <= i < flats.len() ==> p.by_flat.contains_key(#[trigger] flats[i]),
    ensures
        forall|x: SlotView| #[trigger]
            defrag::slots_of(p, flats).contains(x) ==> slot_true(p, flats, x),
    decreases flats.len(),
{
    if flats.len() > 0 {
        let init = flats.drop_last();
        assert forall|i: int| 0 <= i < init.len() implies p.by_flat.contains_key(
            #[trigger] init[i],
        ) by {
            assert(init[i] == flats[i]);
        }
        lemma_slots_frozen(p, init);
        let f = flats.last();
        assert(p.by_flat.contains_key(flats[flats.len() - 1]));
        let e = p.by_flat[f];
        let last = defrag::slots_at(e.meta.locations, defrag::named_hash(e.meta), p.holds(e.seq));
        lemma_slots_at(e.meta.locations, defrag::named_hash(e.meta), p.holds(e.seq));
        let rest = defrag::slots_of(p, init);
        let all = defrag::slots_of(p, flats);
        assert forall|x: SlotView| #[trigger] all.contains(x) implies slot_true(p, flats, x) by {
            let i = choose|i: int| 0 <= i < all.len() && all[i] == x;
            if i < rest.len() {
                assert(rest[i] == x);
                assert(rest.contains(x));
                let g = choose|g: Seq<u8>|
                    init.contains(g) && #[trigger] stands_at(p, g, x.key.0, x.key.1, x.offset)
                        && x.frozen == p.holds(p.by_flat[g].seq);
                let j = choose|j: int| 0 <= j < init.len() && init[j] == g;
                assert(flats[j] == g);
            } else {
                assert(last[i - rest.len()] == x);
                assert(last.contains(x));
                assert(stands_at(p, f, x.key.0, x.key.1, x.offset));
                assert(flats[flats.len() - 1] == f);
            }
        }
    }
}

/// A segment with a gap is packed: where two loose blocks stand in a segment, one of them
/// with no loose block right before it, and no reference holds a block there, the plan orders
/// the segment to be packed.
pub proof fn gaps_are_packed(
    p: PoolView,
    slot: u64,
    node_id: Seq<char>,
    segment: u64,
    offset: u64,
    other: u64,
)
    requires
        p.by_flat.dom().finite(),
        loose_at(p, node_id, segment, offset),
        loose_at(p, node_id, segment, other),
        other != offset,
        0 < offset < u64::MAX,
        offset >= slot ==> !loose_at(p, node_id, segment, (offset - slot) as u64),
        forall|f: Seq<u8>, o: u64| #[trigger]
            stands_at(p, f, node_id, segment, o) ==> !p.holds(p.by_flat[f].seq),
    ensures
        defrag::compact_plan(p, slot).contains(pack_order(node_id, segment)),
{
    let slots = all_slots(p);
    let k = (node_id, segment);
    lemma_finite(slots, k);
    lemma_offset_loose(p, k, offset);
    lemma_offset_loose(p, k, other);
    lemma_offset_loose(p, k, (offset - slot) as u64);
    let d = defrag::offsets_in(slots, k);
    let os = listing::listing::<u64>(d);
    listing::listing_lists::<u64>(d);
    assert(d.contains(offset) && d.contains(other));
    assert(os.to_set().contains(offset) && os.to_set().contains(other));
    let i = choose|i: int| 0 <= i < os.len() && os[i] == offset;
    let j = choose|j: int| 0 <= j < os.len() && os[j] == other;
    assert(i != j);
    assert(!defrag::dense(os, slot)) by {
        if defrag::dense(os, slot) {
            assert(os[i] == defrag::sat_mul(i as u64, slot));
            assert(0 * slot == 0) by (nonlinear_arith);
            assert(i > 0);
            assert(os[i - 1] == defrag::sat_mul((i - 1) as u64, slot));
            lemma_listing_fits(os);
            assert((i - 1) * slot == i * slot - slot && (i - 1) * slot >= 0) by (nonlinear_arith)
                requires
                    i >= 1,
            ;
            assert(os[i - 1] == offset - slot);
            assert(os.to_set().contains(os[i - 1]));
            assert(d.contains((offset - slot) as u64));
        }
    }
    assert(!defrag::pinned(slots, k)) by {
        if defrag::pinned(slots, k) {
            let i = choose|i: int|
                0 <= i < slots.len() && (#[trigger] slots[i]).key == k && slots[i].frozen;
            let f = lemma_slot_from(p, i);
            assert(stands_at(p, f, node_id, segment, slots[i].offset));
        }
    }
    let ks = listing::listing::<SegmentKey>(defrag::movable_segments(slots));
    listing::listing_lists::<SegmentKey>(defrag::movable_segments(slots));
    assert(ks.to_set().contains(k));
    lemma_order_planned(slots, ks, slot, k);
}

/// Distinct numbers of 64 bits are no more than such numbers can count.
proof fn lemma_listing_fits(os: Seq<u64>)
    requires
        os.no_duplicates(),
    ensures
        os.len() <= u64::MAX + 1,
{
    let ns = os.map_values(|o: u64| o as int);
    let all = vstd::set_lib::set_int_range(0, u64::MAX + 1);
    vstd::set_lib::lemma_int_range(0, u64::MAX + 1);
    assert(ns.no_duplicates()) by {
        assert forall|i: int, j: int| 0 <= i < ns.len() && 0 <= j < ns.len() && i != j implies ns[i]
            != ns[j] by {
            assert(os[i] != os[j]);
        }
    }
    ns.unique_seq_to_set();
    assert(ns.to_set().subset_of(all)) by {
        assert forall|x: int| ns.to_set().contains(x) implies all.contains(x) by {
            let i = choose|i: int| 0 <= i < ns.len() && ns[i] == x;
            assert(ns[i] == os[i] as int);
        }
    }
    vstd::set_lib::lemma_len_subset(ns.to_set(), all);
}

/// Only segments with a gap are packed: in a segment that is ordered to be packed, two loose
/// blocks stand, and one of them not right behind another nor at the front.
pub proof fn only_gaps_are_packed(p: PoolView, slot: u64, i: int)
    requires
        p.by_flat.dom().finite(),
        0 <= i < defrag::compact_plan(p, slot).len(),
        slot > 0,
    ensures
        ({
            let m = defrag::compact_plan(p, slot)[i];
            &&& m == pack_order(m.node_id, m.segment_id)
            &&& exists|o: u64, other: u64|
                o != other && #[trigger] loose_at(p, m.node_id, m.segment_id, o)
                    && #[trigger] loose_at(p, m.node_id, m.segment_id, other)
            &&& exists|o: u64| #[trigger]
                loose_at(p, m.node_id, m.segment_id, o) && o > 0 && (o >= slot ==> !loose_at(
                    p,
                    m.node_id,
                    m.segment_id,
                    (o - slot) as u64,
                ))
        }),
{
    let slots = all_slots(p);
    let ks = listing::listing::<SegmentKey>(defrag::movable_segments(slots));
    let m = defrag::compact_plan(p, slot)[i];
    let k = lemma_compact_order(slots, ks, slot, i);
    lemma_finite(slots, k);
    assert forall|o: u64| #[trigger] defrag::offsets_in(slots, k).contains(o) == loose_at(
        p,
        k.0,
        k.1,
        o,
    ) by {
        lemma_offset_loose(p, k, o);
    }
    let d = defrag::offsets_in(slots, k);
    let os = listing::listing::<u64>(d);
    listing::listing_lists::<u64>(d);
    assert(os.to_set().contains(os[0]) && os.to_set().contains(os[1]));
    assert(loose_at(p, k.0, k.1, os[0]) && loose_at(p, k.0, k.1, os[1]));
    assert(os[0] != os[1]);
    if forall|o: u64| #[trigger]
        loose_at(p, k.0, k.1, o) && o > 0 ==> o >= slot && loose_at(
            p,
            k.0,
            k.1,
            (o - slot) as u64,
        ) {
        assert forall|j: int| 0 <= j < os.len() implies #[trigger] os[j] == defrag::sat_mul(
            j as u64,
            slot,
        ) by {
            lemma_no_gap(os, d, slot, j);
        }
        assert(defrag::dense(os, slot));
    }
}

proof fn lemma_compact_order(
    slots: Seq<SlotView>,
    ks: Seq<(Seq<char>, u64)>,
    slot: u64,
    i: int,
) -> (k: (Seq<char>, u64))
    requires
        0 <= i < defrag::compact_moves(slots, ks, slot).len(),
    ensures
        defrag::compactable(slots, k, slot),
        defrag::compact_moves(slots, ks, slot)[i] == pack_order(k.0, k.1),
    decreases ks.len(),
{
    let rest = defrag::compact_moves(slots, ks.drop_last(), slot);
    if i < rest.len() {
        lemma_compact_order(slots, ks.drop_last(), slot, i)
    } else {
        ks.last()
    }
}

/// Numbers of which each but zero has its predecessor are the multiples, in order.
proof fn lemma_no_gap(os: Seq<u64>, d: Set<u64>, slot: u64, j: int)
    requires
        slot > 0,
        listing::lists::<u64>(os, d),
        0 <= j < os.len(),
        forall|o: u64| #[trigger]
            d.contains(o) && o > 0 ==> o >= slot && d.contains((o - slot) as u64),
    ensures
        os[j] == j * slot,
        os[j] == defrag::sat_mul(j as u64, slot),
    decreases j,
{
    assert(os.to_set().contains(os[j]));
    assert(d.contains(os[j]));
    if j == 0 {
        if os[0] > 0 {
            let before = (os[0] - slot) as u64;
            assert(os.to_set().contains(before));
            let i = choose|i: int| 0 <= i < os.len() && os[i] == before;
            if i > 0 {
                assert(<u64 as Ranked>::ranks(os[0], os[i]));
            }
        }
        assert(0 * slot == 0) by (nonlinear_arith);
    } else {
        lemma_no_gap(os, d, slot, j - 1);
        assert(<u64 as Ranked>::ranks(os[j - 1], os[j]));
        assert(os[j - 1] != os[j]);
        let before = (os[j] - slot) as u64;
        assert(os.to_set().contains(before));
        let i = choose|i: int| 0 <= i < os.len() && os[i] == before;
        if i > j {
            assert(<u64 as Ranked>::ranks(os[j], os[i]));
        }
        assert(i < j);
        if i < j - 1 {
            lemma_no_gap(os, d, slot, i);
            assert(i * slot + slot <= (j - 1) * slot) by (nonlinear_arith)
                requires
                    i + 1 <= j - 1,
            ;
        }
        assert((j - 1) * slot + slot == j * slot) by (nonlinear_arith);
        lemma_listing_fits(os);
    }
}

/// The block is loose, belongs to a chain, and its first copy in L2 is the `j`-th of its
/// copies, on the node.
pub open spec fn mate(p: PoolView, f: Seq<u8>, root: Seq<u8>, node_id: Seq<char>, j: int) -> bool {
    let e = p.by_flat[f];
    &&& p.by_flat.contains_key(f)
    &&& !p.holds(e.seq)
    &&& e.chain.len() > 0 && e.chain[0] == root
    &&& e.chain.len() <= usize::MAX
    &&& 0 <= j < e.meta.locations.len()
    &&& e.meta.locations[j].tier == Tier::L2.spec_number()
    &&& e.meta.locations[j].node_id == node_id
    &&& forall|i: int| 0 <= i < j ==> (#[trigger] e.meta.locations[i]).tier
        != Tier::L2.spec_number()
}

proof fn lemma_first_l2_is(locations: Seq<LocationView>, i: int, j: int)
    requires
        0 <= i <= j < locations.len(),
        locations[j].tier == Tier::L2.spec_number(),
        forall|m: int| 0 <= m < j ==> (#[trigger] locations[m]).tier != Tier::L2.spec_number(),
    ensures
        defrag::first_l2(locations, i) == j,
    decreases j - i,
{
    if i < j {
        lemma_first_l2_is(locations, i + 1, j);
    }
}

proof fn lemma_member_listed(p: PoolView, flats: Seq<Seq<u8>>, f: Seq<u8>)
    requires
        flats.contains(f),
        defrag::member_of(p, p.by_flat[f]) is Some,
    ensures
        defrag::members_of(p, flats).contains(defrag::member_of(p, p.by_flat[f])->0),
    decreases flats.len(),
{
    let all = defrag::members_of(p, flats);
    let init = flats.drop_last();
    let rest = defrag::members_of(p, init);
    let m = defrag::member_of(p, p.by_flat[f])->0;
    let i = choose|i: int| 0 <= i < flats.len() && flats[i] == f;
    if i < init.len() {
        assert(init[i] == f);
        lemma_member_listed(p, init, f);
        let j = choose|j: int| 0 <= j < rest.len() && rest[j] == m;
        assert(all[j] == m);
    } else {
        assert(all[rest.len() as int] == m);
    }
}

/// The place of a mate among the members of its chain.
proof fn lemma_mate_at(p: PoolView, f: Seq<u8>, root: Seq<u8>, node_id: Seq<char>, j: int) -> (n: int)
    requires
        p.by_flat.dom().finite(),
        mate(p, f, root, node_id, j),
    ensures
        ({
            let members = defrag::members_of(p, authority::flats_of(Some(p)));
            let ms = defrag::chain_members(members, (root, node_id));
            &&& 0 <= n < ms.len()
            &&& ms[n].segment == p.by_flat[f].meta.locations[j].segment_id
            &&& ms[n].offset == p.by_flat[f].meta.locations[j].offset
            &&& ms[n].pos == defrag::place_in(
                p.by_flat[f].chain,
                defrag::named_hash(p.by_flat[f].meta),
                0,
            ) as usize
        }),
{
    broadcast use vstd::seq_lib::group_to_multiset_ensures;

    let flats = authority::flats_of(Some(p));
    let members = defrag::members_of(p, flats);
    let k = (root, node_id);
    lemma_flats(p);
    assert(flats.contains(f));
    lemma_first_l2_is(p.by_flat[f].meta.locations, 0, j);
    lemma_member_listed(p, flats, f);
    let m = defrag::member_of(p, p.by_flat[f])->0;
    let picked = members.filter(|m: MemberView| m.key == k);
    queue::lemma_filter(members, |m: MemberView| m.key == k);
    assert(picked.contains(m));
    let ms = defrag::chain_members(members, k);
    order::ranked_keeps_values::<Member>(picked);
    assert(picked.to_multiset().count(m) > 0);
    assert(ms.to_multiset().count(m) > 0);
    assert(ms.contains(m));
    choose|n: int| 0 <= n < ms.len() && ms[n] == m
}

/// A copy on a node is at a place, or a plan brings it there.
pub open spec fn ends_at(
    plan: Seq<DefragMoveView>,
    node_id: Seq<char>,
    l: LocationView,
    segment: u64,
    offset: u64,
) -> bool {
    (l.segment_id == segment && l.offset == offset) || exists|i: int|
        0 <= i < plan.len() && {
            let x = #[trigger] plan[i];
            &&& x.node_id == node_id
            &&& x.from_segment == l.segment_id
            &&& x.from_offset == l.offset
            &&& x.to_segment == segment
            &&& x.to_offset == offset
        }
}

/// Where a hash ends a chain and occurs nowhere else in it, that is its place.
proof fn lemma_last_place(chain: Seq<Seq<u8>>, flat: Seq<u8>, i: int)
    requires
        chain.len() > 0,
        chain.last() == flat,
        chain.no_duplicates(),
        0 <= i < chain.len(),
    ensures
        defrag::place_in(chain, flat, i) == chain.len() - 1,
    decreases chain.len() - i,
{
    if i < chain.len() - 1 {
        assert(chain[i] != chain[chain.len() - 1]);
        lemma_last_place(chain, flat, i + 1);
    }
}

/// Blocks of one chain end up in one segment: of loose blocks with a common root and copies in
/// L2 of one node, the plan leaves or brings these copies into the same segment, the deeper
/// ones no further to the front.
pub proof fn chain_mates_share_a_segment(
    p: PoolView,
    slot: u64,
    root: Seq<u8>,
    node_id: Seq<char>,
    f: Seq<u8>,
    i: int,
    g: Seq<u8>,
    j: int,
)
    requires
        p.by_flat.dom().finite(),
        slot > 0,
        p.by_flat.len() <= u64::MAX,
        mate(p, f, root, node_id, i),
        mate(p, g, root, node_id, j),
    ensures
        exists|segment: u64, a: u64, b: u64|
            {
                &&& #[trigger] ends_at(
                    defrag::colocate_plan(p, slot),
                    node_id,
                    p.by_flat[f].meta.locations[i],
                    segment,
                    a,
                )
                &&& #[trigger] ends_at(
                    defrag::colocate_plan(p, slot),
                    node_id,
                    p.by_flat[g].meta.locations[j],
                    segment,
                    b,
                )
                &&& {
                    let c = p.by_flat[f].chain;
                    let d = p.by_flat[g].chain;
                    c.no_duplicates() && d.no_duplicates() && defrag::named_hash(p.by_flat[f].meta)
                        == c.last() && defrag::named_hash(p.by_flat[g].meta) == d.last() && c.len()
                        < d.len() ==> a <= b
                }
            },
{
    let k = (root, node_id);
    let members = defrag::members_of(p, authority::flats_of(Some(p)));
    let ms = defrag::chain_members(members, k);
    let plan = defrag::colocate_plan(p, slot);
    let m = lemma_mate_at(p, f, root, node_id, i);
    let n = lemma_mate_at(p, g, root, node_id, j);
    chains_come_together(p, slot, k);
    let (segment, base) = choose|segment: u64, base: u64| #[trigger]
        together(plan, node_id, ms, segment, base, slot);
    let a = defrag::offset_at(base, m, slot);
    let b = defrag::offset_at(base, n, slot);
    assert(brought(plan, node_id, ms[m], (segment, a)));
    assert(brought(plan, node_id, ms[n], (segment, b)));
    assert(ends_at(plan, node_id, p.by_flat[f].meta.locations[i], segment, a));
    assert(ends_at(plan, node_id, p.by_flat[g].meta.locations[j], segment, b));
    let c = p.by_flat[f].chain;
    let d = p.by_flat[g].chain;
    if c.no_duplicates() && d.no_duplicates() && defrag::named_hash(p.by_flat[f].meta) == c.last()
        && defrag::named_hash(p.by_flat[g].meta) == d.last() && c.len() < d.len() {
        lemma_last_place(c, c.last(), 0);
        lemma_last_place(d, d.last(), 0);
        lemma_members_sorted(members, k);
        if n < m {
            assert(Member::ranks(ms[n], ms[m]));
        }
        assert(m <= n);
        lemma_few_members(p, k);
        lemma_later_is_further(base, m, n, slot);
    }
}

/// A chain has no more members than there are blocks.
proof fn lemma_few_members(p: PoolView, k: (Seq<u8>, Seq<char>))
    requires
        p.by_flat.dom().finite(),
    ensures
        defrag::chain_members(
            defrag::members_of(p, authority::flats_of(Some(p))),
            k,
        ).len() <= p.by_flat.len(),
{
    let flats = authority::flats_of(Some(p));
    let members = defrag::members_of(p, flats);
    listing::listing_lists::<Vec<u8>>(p.by_flat.dom());
    flats.unique_seq_to_set();
    lemma_members_len(p, flats);
    let picked = members.filter(|m: MemberView| m.key == k);
    queue::lemma_filter(members, |m: MemberView| m.key == k);
    order::ranked_keeps_values::<Member>(picked);
}

proof fn lemma_members_len(p: PoolView, flats: Seq<Seq<u8>>)
    ensures
        defrag::members_of(p, flats).len() <= flats.len(),
    decreases flats.len(),
{
    if flats.len() > 0 {
        lemma_members_len(p, flats.drop_last());
    }
}

proof fn lemma_members_sorted(members: Seq<MemberView>, k: (Seq<u8>, Seq<char>))
    ensures
        forall|i: int, j: int|
            0 <= i < j < defrag::chain_members(members, k).len() ==> Member::ranks(
                #[trigger] defrag::chain_members(members, k)[i],
                #[trigger] defrag::chain_members(members, k)[j],
            ),
{
    order::ranked_is_sorted::<Member>(members.filter(|m: MemberView| m.key == k));
}

/// A later place is no further to the front.
proof fn lemma_later_is_further(base: u64, m: int, n: int, slot: u64)
    requires
        0 <= m <= n,
        n <= u64::MAX,
    ensures
        defrag::offset_at(base, m, slot) <= defrag::offset_at(base, n, slot),
{
    assert(0 <= m * slot <= n * slot) by (nonlinear_arith)
        requires
            0 <= m <= n,
    ;
}

/// The plan is of the mode asked for: packing alone orders segments to be packed, bringing
/// together alone moves blocks, and otherwise both plans follow each other. Without a size of
/// slots they are of the usual one.
pub proof fn plan_is_of_its_mode(
    a: AuthorityView,
    k: (Seq<char>, Seq<char>),
    pk: i32,
    mode: DefragMode,
    slot_bytes: u64,
)
    requires
        a.pool_at(k, pk) is Some,
    ensures
        ({
            let p = a.pool_at(k, pk)->0;
            let slot: u64 = if slot_bytes == 0 {
                4096
            } else {
                slot_bytes
            };
            let r = a.layout_plan(k, pk, mode, slot_bytes);
            &&& r is Ok
            &&& mode == DefragMode::Compact ==> r->Ok_0 == defrag::compact_plan(p, slot)
            &&& mode == DefragMode::Colocate ==> r->Ok_0 == defrag::colocate_plan(p, slot)
            &&& mode != DefragMode::Compact && mode != DefragMode::Colocate ==> r->Ok_0
                == defrag::compact_plan(p, slot) + defrag::colocate_plan(p, slot)
        }),
{
    let slot: u64 = if slot_bytes == 0 {
        4096
    } else {
        slot_bytes
    };
    let p = a.pool_at(k, pk)->0;
    let e = Seq::<DefragMoveView>::empty();
    assert(defrag::compact_plan(p, slot) + e =~= defrag::compact_plan(p, slot));
    assert(e + defrag::colocate_plan(p, slot) =~= defrag::colocate_plan(p, slot));
}

} // verus!
