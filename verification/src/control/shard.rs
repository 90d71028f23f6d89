//! The consistent-hash ring: every node holds a number of points on it, and a key
//! belongs to the node of the first point at or after its own hash. Nodes that
//! drain stay listed but hold no key.

use vstd::bytes::*;
use vstd::prelude::*;
use vstd::string::*;
use vstd::utf8::*;

use crate::base::keys;
use crate::base::keys::{to_bytes, Dup, Key};
use crate::base::listing;
use crate::base::order;
use crate::base::order::{sort_ranked, text_leq, Ranked};
use crate::base::table::Table;
use crate::base::text::{joined, text};
use crate::control::hash_chain;
use crate::control::hash_chain::flat_to_block_hash;
use crate::proto::{ShardEntry, ShardEntryView, ShardMap, ShardMapView};

verus! {

/// Points per node where the caller gives no number.
pub const DEFAULT_VNODE_COUNT: u32 = 64;

/// The hash of a node's `i`-th point.
pub open spec fn vnode_hash(node_id: Seq<char>, i: u32) -> u64 {
    hash_chain::xxh3_of(encode_utf8(node_id) + spec_u32_to_le_bytes(i))
}

/// The hash of a replacement for a point that collided.
pub open spec fn salted_hash(node_id: Seq<char>, salt: u64) -> u64 {
    hash_chain::xxh3_of((encode_utf8(node_id) + seq![35u8]) + spec_u64_to_le_bytes(salt))
}

/// A sorted sequence with each value once.
pub open spec fn dedup(s: Seq<u64>) -> Seq<u64>
    decreases s.len(),
{
    if s.len() == 0 {
        s
    } else {
        let rest = dedup(s.drop_last());
        if rest.len() > 0 && rest.last() == s.last() {
            rest
        } else {
            rest.push(s.last())
        }
    }
}

/// Points filled up with replacements until there are enough.
pub open spec fn padded(points: Seq<u64>, node_id: Seq<char>, salt: u64, count: nat) -> Seq<u64>
    decreases u64::MAX - salt,
{
    if points.len() >= count || salt == u64::MAX {
        points
    } else {
        let h = salted_hash(node_id, salt);
        padded(
            if points.contains(h) {
                points
            } else {
                points.push(h)
            },
            node_id,
            (salt + 1) as u64,
            count,
        )
    }
}

/// The points of a node, ascending.
pub open spec fn vnode_hashes(node_id: Seq<char>, count: u32) -> Seq<u64> {
    let own = Seq::new(count as nat, |i: int| vnode_hash(node_id, i as u32));
    order::ranked::<u64>(padded(dedup(order::ranked::<u64>(own)), node_id, 0, count as nat))
}

/// A node of the ring.
pub struct NodeState {
    pub vnode_count: u32,
    pub draining: bool,
    pub vnode_hashes: Vec<u64>,
}

/// What a node's state stands for.
#[verifier::ext_equal]
pub struct NodeStateView {
    pub vnode_count: u32,
    pub draining: bool,
    pub vnode_hashes: Seq<u64>,
}

impl View for NodeState {
    type V = NodeStateView;

    open spec fn view(&self) -> NodeStateView {
        NodeStateView {
            vnode_count: self.vnode_count,
            draining: self.draining,
            vnode_hashes: self.vnode_hashes@,
        }
    }
}

/// The nodes of a ring.
pub type Nodes = Map<Seq<char>, NodeStateView>;

/// A live node holds the point.
pub open spec fn live_holds(nodes: Nodes, node_id: Seq<char>, h: u64) -> bool {
    nodes.contains_key(node_id) && !nodes[node_id].draining && nodes[node_id].vnode_hashes.contains(
        h,
    )
}

/// The live node that holds the point; of several the first by name.
pub open spec fn first_holder(nodes: Nodes, h: u64, node_id: Seq<char>) -> bool {
    live_holds(nodes, node_id, h) && forall|other: Seq<char>| #[trigger]
        live_holds(nodes, other, h) ==> order::text_le(node_id, other)
}

/// Who holds which point.
pub open spec fn live_ring(nodes: Nodes) -> Map<u64, Seq<char>> {
    Map::new(
        |h: u64| exists|n: Seq<char>| first_holder(nodes, h, n),
        |h: u64| choose|n: Seq<char>| first_holder(nodes, h, n),
    )
}

/// The first point at or after a hash, or the first of all where none follows.
pub open spec fn succeeds(ring: Map<u64, Seq<char>>, h: u64, p: u64) -> bool {
    &&& ring.contains_key(p)
    &&& if p >= h {
        forall|q: u64| #[trigger] ring.contains_key(q) && q >= h ==> p <= q
    } else {
        forall|q: u64| #[trigger] ring.contains_key(q) ==> q < h && p <= q
    }
}

/// The owner of a hash.
pub open spec fn ring_owner(ring: Map<u64, Seq<char>>, h: u64) -> Option<Seq<char>> {
    if exists|p: u64| succeeds(ring, h, p) {
        Some(ring[choose|p: u64| succeeds(ring, h, p)])
    } else {
        None
    }
}

/// The owner of a key.
pub open spec fn owner(nodes: Nodes, key: Seq<u8>) -> Option<Seq<char>> {
    ring_owner(live_ring(nodes), hash_chain::xxh3_of(key))
}

/// What a ring stands for.
#[verifier::ext_equal]
pub struct RingView {
    pub generation: u64,
    pub default_vnode_count: u32,
    pub nodes: Nodes,
}

impl RingView {
    /// A ring without nodes.
    pub open spec fn fresh(default_vnode_count: u32) -> RingView {
        RingView {
            generation: 0,
            default_vnode_count: if default_vnode_count == 0 {
                1
            } else {
                default_vnode_count
            },
            nodes: Map::empty(),
        }
    }

    /// A change of membership gets the next generation.
    pub open spec fn bumped(self, nodes: Nodes) -> RingView {
        RingView {
            generation: if self.generation == u64::MAX {
                self.generation
            } else {
                (self.generation + 1) as u64
            },
            nodes,
            ..self
        }
    }

    /// A node joins: refused without a name or where it is a member.
    pub open spec fn joined(self, node_id: Seq<char>, vnode_count: u32) -> (
        RingView,
        Result<(), Seq<char>>,
    ) {
        if node_id.len() == 0 {
            (self, Err("join: node_id required"@))
        } else if self.nodes.contains_key(node_id) {
            (self, Err("join: node "@ + node_id + " already present"@))
        } else {
            let count = if vnode_count == 0 {
                self.default_vnode_count
            } else {
                vnode_count
            };
            (
                self.bumped(
                    self.nodes.insert(
                        node_id,
                        NodeStateView {
                            vnode_count: count,
                            draining: false,
                            vnode_hashes: vnode_hashes(node_id, count),
                        },
                    ),
                ),
                Ok(()),
            )
        }
    }

    /// A node starts to drain: refused for a stranger and for one that drains.
    pub open spec fn drained(self, node_id: Seq<char>) -> (RingView, Result<(), Seq<char>>) {
        if !self.nodes.contains_key(node_id) {
            (self, Err("drain: unknown node "@ + node_id))
        } else if self.nodes[node_id].draining {
            (self, Err("drain: node "@ + node_id + " already draining"@))
        } else {
            (
                self.bumped(
                    self.nodes.insert(
                        node_id,
                        NodeStateView { draining: true, ..self.nodes[node_id] },
                    ),
                ),
                Ok(()),
            )
        }
    }

    /// A node leaves: refused for a stranger and for one that does not drain.
    pub open spec fn left(self, node_id: Seq<char>) -> (RingView, Result<(), Seq<char>>) {
        if !self.nodes.contains_key(node_id) {
            (self, Err("remove: unknown node "@ + node_id))
        } else if !self.nodes[node_id].draining {
            (self, Err("remove: node "@ + node_id + " must DrainShardNode first"@))
        } else {
            (self.bumped(self.nodes.remove(node_id)), Ok(()))
        }
    }
}

impl Ranked for ShardEntry {
    open spec fn ranks(a: ShardEntryView, b: ShardEntryView) -> bool {
        order::text_le(a.node_id, b.node_id)
    }

    fn leq(&self, other: &Self) -> (le: bool) {
        text_leq(self.node_id.as_str(), other.node_id.as_str())
    }
}

/// A published entry tells of a member.
pub open spec fn entry_of(node_id: Seq<char>, st: NodeStateView) -> ShardEntryView {
    ShardEntryView {
        node_id,
        vnode_count: st.vnode_count,
        draining: st.draining,
        vnode_hashes: st.vnode_hashes,
    }
}

/// The published map tells of every member once, by name.
pub open spec fn publishes(map: ShardMapView, ring: RingView) -> bool {
    &&& map.generation == ring.generation
    &&& map.default_vnode_count == ring.default_vnode_count
    &&& forall|i: int, j: int|
        0 <= i < j < map.nodes.len() ==> order::text_le(
            (#[trigger] map.nodes[i]).node_id,
            (#[trigger] map.nodes[j]).node_id,
        ) && map.nodes[i].node_id != map.nodes[j].node_id
    &&& forall|i: int|
        0 <= i < map.nodes.len() ==> ring.nodes.contains_key((#[trigger] map.nodes[i]).node_id)
            && map.nodes[i] == entry_of(map.nodes[i].node_id, ring.nodes[map.nodes[i].node_id])
    &&& forall|n: Seq<char>| #[trigger]
        ring.nodes.contains_key(n) ==> map.nodes.contains(entry_of(n, ring.nodes[n]))
}

proof fn lemma_holder(nodes: Nodes, h: u64, n: Seq<char>)
    requires
        first_holder(nodes, h, n),
    ensures
        live_ring(nodes).contains_key(h),
        live_ring(nodes)[h] == n,
{
    let m = choose|m: Seq<char>| first_holder(nodes, h, m);
    assert(first_holder(nodes, h, m));
    assert(live_holds(nodes, m, h) && live_holds(nodes, n, h));
    listing::text_le_antisymmetric(m, n);
}

proof fn lemma_successor(ring: Map<u64, Seq<char>>, h: u64, p: u64)
    requires
        succeeds(ring, h, p),
    ensures
        ring_owner(ring, h) == Some(ring[p]),
{
    let q = choose|q: u64| succeeds(ring, h, q);
    assert(succeeds(ring, h, q));
    assert(ring.contains_key(p) && ring.contains_key(q));
}

/// The ring as stored: its members, and who holds which point.
pub struct ShardRing {
    pub generation: u64,
    pub default_vnode_count: u32,
    pub nodes: Table<String, NodeState>,
    pub ring: Table<u64, String>,
}

impl View for ShardRing {
    type V = RingView;

    open spec fn view(&self) -> RingView {
        RingView {
            generation: self.generation,
            default_vnode_count: self.default_vnode_count,
            nodes: self.nodes@,
        }
    }
}

impl ShardRing {
    /// The stored points are those of the live members.
    pub open spec fn wf(&self) -> bool {
        self.ring@ == live_ring(self.nodes@)
    }

    /// A ring without nodes.
    pub fn new(default_vnode_count: u32) -> (r: Self)
        ensures
            r@ == RingView::fresh(default_vnode_count),
            r.wf(),
    {
        let r = ShardRing {
            generation: 0,
            default_vnode_count: if default_vnode_count == 0 {
                1
            } else {
                default_vnode_count
            },
            nodes: Table::new(),
            ring: Table::new(),
        };
        proof {
            let none = live_ring(r.nodes@);
            assert forall|h: u64| !none.contains_key(h) by {
                if none.contains_key(h) {
                    let n = choose|n: Seq<char>| first_holder(r.nodes@, h, n);
                    assert(live_holds(r.nodes@, n, h));
                }
            }
            assert(r.ring@ =~= none);
        }
        r
    }

    /// The ring as published.
    pub fn to_proto(&self) -> (map: ShardMap)
        ensures
            publishes(map@, self@),
    {
        let n = self.nodes.len();
        let ghost order = self.nodes.order();
        let mut entries: Vec<ShardEntry> = Vec::new();
        let mut i: usize = 0;
        while i < n
            invariant
                i <= n == order.len(),
                order == self.nodes.order(),
                entries@.len() == i,
                forall|j: int|
                    0 <= j < i ==> (#[trigger] entries@[j])@ == entry_of(
                        order[j],
                        self.nodes@[order[j]],
                    ),
            decreases n - i,
        {
            let (id, st) = self.nodes.at(i);
            let hashes = st.vnode_hashes.clone();
            assert(hashes@ =~= st.vnode_hashes@);
            entries.push(
                ShardEntry {
                    node_id: id.dup(),
                    vnode_count: st.vnode_count,
                    draining: st.draining,
                    vnode_hashes: hashes,
                },
            );
            i += 1;
        }
        let ghost listed = keys::views(entries@);
        let nodes = sort_ranked(entries);
        let map = ShardMap {
            generation: self.generation,
            default_vnode_count: self.default_vnode_count,
            nodes,
        };
        proof {
            lemma_published(listed, order, self@.nodes);
        }
        map
    }

    /// Sets the stored points from the members.
    fn rebuild_ring(&mut self)
        ensures
            final(self)@ == old(self)@,
            final(self).wf(),
    {
        let mut ring: Table<u64, String> = Table::new();
        let n = self.nodes.len();
        let ghost order = self.nodes.order();
        let ghost nodes = self.nodes@;
        let mut i: usize = 0;
        while i < n
            invariant
                i <= n == order.len(),
                order == self.nodes.order(),
                nodes == self.nodes@,
                self@ == old(self)@,
                so_far(nodes, order, i as int, 0, ring@),
            decreases n - i,
        {
            let (id, st) = self.nodes.at(i);
            if !st.draining {
                let mut k: usize = 0;
                while k < st.vnode_hashes.len()
                    invariant
                        k <= st.vnode_hashes@.len(),
                        i < order.len(),
                        order == self.nodes.order(),
                        nodes == self.nodes@,
                        id@ == order[i as int],
                        nodes.contains_key(id@),
                        nodes[id@] == st@,
                        !st.draining,
                        so_far(nodes, order, i as int, k as int, ring@),
                    decreases st.vnode_hashes@.len() - k,
                {
                    let h: u64 = st.vnode_hashes[k];
                    let ghost before = ring@;
                    let take = match ring.get(&h) {
                        Some(other) => !text_leq(other.as_str(), id.as_str()),
                        None => true,
                    };
                    if take {
                        ring.insert(h, id.dup());
                    }
                    proof {
                        lemma_point(nodes, order, i as int, k as int, before, ring@, h, id@, take);
                    }
                    k += 1;
                }
            }
            proof {
                lemma_next_node(nodes, order, i as int, ring@);
            }
            i += 1;
        }
        self.ring = ring;
        proof {
            lemma_rebuilt(nodes, order, ring@);
        }
    }

    /// The points of a node.
    fn vnode_hashes_for(node_id: &str, vnode_count: u32) -> (out: Vec<u64>)
        ensures
            out@ == vnode_hashes(node_id@, vnode_count),
    {
        let ghost own = Seq::new(vnode_count as nat, |i: int| vnode_hash(node_id@, i as u32));
        let mut points: Vec<u64> = Vec::new();
        let mut i: u32 = 0;
        while i < vnode_count
            invariant
                i <= vnode_count,
                own == Seq::new(vnode_count as nat, |i: int| vnode_hash(node_id@, i as u32)),
                points@ == own.take(i as int),
            decreases vnode_count - i,
        {
            let mut buf = to_bytes(node_id.as_bytes());
            let mut tail = u32_to_le_bytes(i);
            buf.append(&mut tail);
            assert(buf@ =~= encode_utf8(node_id@) + spec_u32_to_le_bytes(i));
            points.push(flat_to_block_hash(buf.as_slice()));
            assert(own.take(i + 1) =~= own.take(i as int).push(vnode_hash(node_id@, i)));
            i += 1;
        }
        assert(own.take(i as int) =~= own);
        assert(keys::views(points@) =~= own);
        let sorted = sort_ranked(points);
        assert(keys::views(sorted@) =~= sorted@);
        let mut out: Vec<u64> = Vec::new();
        let mut j: usize = 0;
        assert(sorted@.take(0) =~= Seq::empty());
        while j < sorted.len()
            invariant
                j <= sorted@.len(),
                out@ == dedup(sorted@.take(j as int)),
            decreases sorted@.len() - j,
        {
            let h: u64 = sorted[j];
            assert(sorted@.take(j + 1).drop_last() =~= sorted@.take(j as int));
            if out.len() == 0 || out[out.len() - 1] != h {
                out.push(h);
            }
            j += 1;
        }
        assert(sorted@.take(j as int) =~= sorted@);
        let mut salt: u64 = 0;
        let ghost goal = padded(out@, node_id@, 0, vnode_count as nat);
        while out.len() < vnode_count as usize && salt < u64::MAX
            invariant
                goal == padded(out@, node_id@, salt, vnode_count as nat),
            decreases u64::MAX - salt,
        {
            let mut buf = to_bytes(node_id.as_bytes());
            buf.push(35u8);
            let mut tail = u64_to_le_bytes(salt);
            buf.append(&mut tail);
            assert(buf@ =~= (encode_utf8(node_id@) + seq![35u8]) + spec_u64_to_le_bytes(salt));
            let h: u64 = flat_to_block_hash(buf.as_slice());
            assert(keys::views(out@) =~= out@);
            if !crate::base::keys::contains_key_in(&out, &h) {
                out.push(h);
            }
            salt += 1;
        }
        assert(keys::views(out@) =~= out@);
        let done = sort_ranked(out);
        assert(keys::views(done@) =~= done@);
        done
    }

    /// The owner of a key; none where no live node holds a point.
    pub fn owner_of(&self, key: &[u8]) -> (owner_id: Option<String>)
        requires
            self.wf(),
        ensures
            match owner_id {
                Some(n) => owner(self@.nodes, key@) == Some(n@),
                None => owner(self@.nodes, key@) is None,
            },
    {
        let h: u64 = flat_to_block_hash(key);
        let n = self.ring.len();
        let ghost ring = self.ring@;
        let ghost order = self.ring.order();
        let mut best: Option<usize> = None;
        let mut i: usize = 0;
        while i < n
            invariant
                i <= n == order.len(),
                order == self.ring.order(),
                ring == self.ring@,
                match best {
                    Some(b) => {
                        &&& b < i
                        &&& if order[b as int] >= h {
                            forall|j: int| 0 <= j < i && #[trigger] order[j] >= h ==> order[b as int]
                                <= order[j]
                        } else {
                            forall|j: int| 0 <= j < i ==> #[trigger] order[j] < h && order[b as int]
                                <= order[j]
                        }
                    },
                    None => i == 0,
                },
            decreases n - i,
        {
            let (p, _) = self.ring.at(i);
            let better = match best {
                None => true,
                Some(b) => {
                    let (q, _) = self.ring.at(b);
                    if *q >= h {
                        *p >= h && *p < *q
                    } else {
                        *p >= h || *p < *q
                    }
                },
            };
            if better {
                best = Some(i);
            }
            i += 1;
        }
        match best {
            None => {
                assert(forall|p: u64| !ring.contains_key(p)) by {
                    assert forall|p: u64| !ring.contains_key(p) by {
                        if ring.contains_key(p) {
                            assert(order.to_set().contains(p));
                        }
                    }
                }
                None
            },
            Some(b) => {
                let (p, node) = self.ring.at(b);
                assert forall|q: u64| #[trigger] ring.contains_key(q) implies exists|j: int|
                    0 <= j < order.len() && order[j] == q by {
                    assert(order.to_set().contains(q));
                }
                assert(succeeds(ring, h, *p)) by {
                    if *p >= h {
                        assert forall|q: u64| #[trigger] ring.contains_key(q) && q >= h implies *p
                            <= q by {
                            let j = choose|j: int| 0 <= j < order.len() && order[j] == q;
                            assert(order[j] >= h);
                        }
                    } else {
                        assert forall|q: u64| #[trigger] ring.contains_key(q) implies q < h && *p
                            <= q by {
                            let j = choose|j: int| 0 <= j < order.len() && order[j] == q;
                            assert(order[j] < h);
                        }
                    }
                }
                proof {
                    lemma_successor(ring, h, *p);
                }
                Some(node.dup())
            },
        }
    }

    /// The members that do not drain, each once.
    pub fn ready_nodes(&self) -> (ids: Vec<String>)
        ensures
            keys::views(ids@).no_duplicates(),
            forall|n: Seq<char>| #[trigger]
                keys::views(ids@).contains(n) <==> self@.nodes.contains_key(n)
                    && !self@.nodes[n].draining,
    {
        let n = self.nodes.len();
        let ghost order = self.nodes.order();
        let ghost nodes = self.nodes@;
        let ghost p = |x: Seq<char>| !nodes[x].draining;
        let mut ids: Vec<String> = Vec::new();
        let mut i: usize = 0;
        assert(keys::views(ids@) =~= order.take(0).filter(p)) by {
            reveal(Seq::filter);
        }
        while i < n
            invariant
                i <= n == order.len(),
                order == self.nodes.order(),
                nodes == self.nodes@,
                p == (|x: Seq<char>| !nodes[x].draining),
                keys::views(ids@) == order.take(i as int).filter(p),
            decreases n - i,
        {
            let (id, st) = self.nodes.at(i);
            proof {
                reveal(Seq::filter);
                assert(order.take(i + 1).drop_last() =~= order.take(i as int));
            }
            let ghost before = keys::views(ids@);
            if !st.draining {
                ids.push(id.dup());
                assert(keys::views(ids@) =~= before.push(id@));
            }
            i += 1;
        }
        assert(order.take(i as int) =~= order);
        proof {
            crate::base::queue::lemma_filter(order, p);
            assert forall|x: Seq<char>| #[trigger] keys::views(ids@).contains(x) <==> nodes.contains_key(
                x,
            ) && !nodes[x].draining by {
                assert(order.to_set().contains(x) == nodes.dom().contains(x));
            }
        }
        ids
    }

    /// Tells whether the node is a member.
    pub fn has_node(&self, node_id: &str) -> (b: bool)
        ensures
            b == self@.nodes.contains_key(node_id@),
    {
        self.nodes.contains_key(&text(node_id))
    }

    fn bump(&mut self)
        ensures
            final(self).generation == if old(self).generation == u64::MAX {
                old(self).generation as int
            } else {
                old(self).generation + 1
            },
            final(self).default_vnode_count == old(self).default_vnode_count,
            final(self).nodes == old(self).nodes,
            final(self).ring == old(self).ring,
    {
        if self.generation < u64::MAX {
            self.generation = self.generation + 1;
        }
    }

    /// Adds a node with its points.
    pub fn join(&mut self, node_id: &str, vnode_count: u32) -> (r: Result<(), String>)
        requires
            old(self).wf(),
        ensures
            final(self)@ == old(self)@.joined(node_id@, vnode_count).0,
            keys::told(r) == old(self)@.joined(node_id@, vnode_count).1,
            final(self).wf(),
    {
        if node_id.is_empty() {
            return Err(text("join: node_id required"));
        }
        let id = text(node_id);
        if self.nodes.contains_key(&id) {
            let mut e = joined("join: node ", node_id);
            e.append(" already present");
            return Err(e);
        }
        let count: u32 = if vnode_count == 0 {
            self.default_vnode_count
        } else {
            vnode_count
        };
        let hashes = ShardRing::vnode_hashes_for(node_id, count);
        self.nodes.insert(
            id,
            NodeState { vnode_count: count, draining: false, vnode_hashes: hashes },
        );
        self.rebuild_ring();
        self.bump();
        assert(self@ =~= old(self)@.joined(node_id@, vnode_count).0);
        Ok(())
    }

    /// Takes a node's points off the ring; it stays a member.
    pub fn mark_drain(&mut self, node_id: &str) -> (r: Result<(), String>)
        requires
            old(self).wf(),
        ensures
            final(self)@ == old(self)@.drained(node_id@).0,
            keys::told(r) == old(self)@.drained(node_id@).1,
            final(self).wf(),
    {
        let id = text(node_id);
        match self.nodes.get(&id) {
            None => {
                return Err(joined("drain: unknown node ", node_id));
            },
            Some(st) => {
                if st.draining {
                    let mut e = joined("drain: node ", node_id);
                    e.append(" already draining");
                    return Err(e);
                }
            },
        }
        if let Some(st) = self.nodes.remove(&id) {
            let st = NodeState { draining: true, ..st };
            self.nodes.insert(id, st);
        }
        assert(self.nodes@ =~= old(self)@.drained(node_id@).0.nodes);
        self.rebuild_ring();
        self.bump();
        assert(self@ =~= old(self)@.drained(node_id@).0);
        Ok(())
    }

    /// Takes a drained node off the membership.
    pub fn remove(&mut self, node_id: &str) -> (r: Result<(), String>)
        requires
            old(self).wf(),
        ensures
            final(self)@ == old(self)@.left(node_id@).0,
            keys::told(r) == old(self)@.left(node_id@).1,
            final(self).wf(),
    {
        let id = text(node_id);
        match self.nodes.get(&id) {
            None => {
                return Err(joined("remove: unknown node ", node_id));
            },
            Some(st) => {
                if !st.draining {
                    let mut e = joined("remove: node ", node_id);
                    e.append(" must DrainShardNode first");
                    return Err(e);
                }
            },
        }
        self.nodes.remove(&id);
        self.rebuild_ring();
        self.bump();
        assert(self@ =~= old(self)@.left(node_id@).0);
        Ok(())
    }
}

/// The points of the first `i` nodes and the first `k` points of the next are in.
spec fn seen_holds(
    nodes: Nodes,
    order: Seq<Seq<char>>,
    i: int,
    k: int,
    node_id: Seq<char>,
    h: u64,
) -> bool {
    live_holds(nodes, node_id, h) && ((exists|j: int| 0 <= j < i && order[j] == node_id) || (i
        < order.len() && order[i] == node_id && exists|m: int|
        0 <= m < k && nodes[node_id].vnode_hashes[m] == h))
}

spec fn so_far(
    nodes: Nodes,
    order: Seq<Seq<char>>,
    i: int,
    k: int,
    ring: Map<u64, Seq<char>>,
) -> bool {
    &&& forall|h: u64| #[trigger]
        ring.contains_key(h) ==> seen_holds(nodes, order, i, k, ring[h], h)
    &&& forall|h: u64, n: Seq<char>| #[trigger]
        seen_holds(nodes, order, i, k, n, h) ==> ring.contains_key(h) && order::text_le(ring[h], n)
}

proof fn lemma_point(
    nodes: Nodes,
    order: Seq<Seq<char>>,
    i: int,
    k: int,
    before: Map<u64, Seq<char>>,
    after: Map<u64, Seq<char>>,
    h: u64,
    id: Seq<char>,
    take: bool,
)
    requires
        0 <= i < order.len(),
        order[i] == id,
        nodes.contains_key(id),
        !nodes[id].draining,
        0 <= k < nodes[id].vnode_hashes.len(),
        nodes[id].vnode_hashes[k] == h,
        so_far(nodes, order, i, k, before),
        take == !(before.contains_key(h) && order::text_le(before[h], id)),
        after == if take {
            before.insert(h, id)
        } else {
            before
        },
    ensures
        so_far(nodes, order, i, k + 1, after),
{
    assert(live_holds(nodes, id, h));
    assert forall|g: u64| #[trigger] after.contains_key(g) implies seen_holds(
        nodes,
        order,
        i,
        k + 1,
        after[g],
        g,
    ) by {
        if g == h && take {
            assert(0 <= k < k + 1 && nodes[id].vnode_hashes[k] == h);
        } else {
            assert(seen_holds(nodes, order, i, k, before[g], g));
        }
    }
    assert forall|g: u64, n: Seq<char>| #[trigger] seen_holds(nodes, order, i, k + 1, n, g)
        implies after.contains_key(g) && order::text_le(after[g], n) by {
        if seen_holds(nodes, order, i, k, n, g) {
            assert(before.contains_key(g) && order::text_le(before[g], n));
            if g == h && take {
                order::bytes_le_total(encode_utf8(before[h]), encode_utf8(id));
                order::bytes_le_transitive(encode_utf8(id), encode_utf8(before[h]), encode_utf8(n));
            }
        } else {
            assert(n == id && g == h);
            order::bytes_le_total(encode_utf8(id), encode_utf8(id));
        }
    }
}

proof fn lemma_next_node(nodes: Nodes, order: Seq<Seq<char>>, i: int, ring: Map<u64, Seq<char>>)
    requires
        0 <= i < order.len(),
        nodes.contains_key(order[i]),
        so_far(
            nodes,
            order,
            i,
            if nodes[order[i]].draining {
                0
            } else {
                nodes[order[i]].vnode_hashes.len() as int
            },
            ring,
        ),
    ensures
        so_far(nodes, order, i + 1, 0, ring),
{
    let id = order[i];
    let k = if nodes[id].draining {
        0
    } else {
        nodes[id].vnode_hashes.len() as int
    };
    assert forall|h: u64, n: Seq<char>| #[trigger] seen_holds(nodes, order, i + 1, 0, n, h)
        implies seen_holds(nodes, order, i, k, n, h) by {
        let j = choose|j: int| 0 <= j < i + 1 && order[j] == n;
        if j == i {
            let m = choose|m: int|
                0 <= m < nodes[id].vnode_hashes.len() && nodes[id].vnode_hashes[m] == h;
            assert(0 <= m < k && nodes[id].vnode_hashes[m] == h);
        } else {
            assert(0 <= j < i && order[j] == n);
        }
    }
    assert forall|h: u64| #[trigger] ring.contains_key(h) implies seen_holds(
        nodes,
        order,
        i + 1,
        0,
        ring[h],
        h,
    ) by {
        let n = ring[h];
        assert(seen_holds(nodes, order, i, k, n, h));
        if exists|j: int| 0 <= j < i && order[j] == n {
            let j = choose|j: int| 0 <= j < i && order[j] == n;
            assert(0 <= j < i + 1 && order[j] == n);
        } else {
            assert(0 <= i < i + 1 && order[i] == n);
        }
    }
}

proof fn lemma_rebuilt(nodes: Nodes, order: Seq<Seq<char>>, ring: Map<u64, Seq<char>>)
    requires
        order.to_set() == nodes.dom(),
        so_far(nodes, order, order.len() as int, 0, ring),
    ensures
        ring == live_ring(nodes),
{
    let i = order.len() as int;
    assert forall|n: Seq<char>, h: u64| live_holds(nodes, n, h) implies #[trigger] seen_holds(
        nodes,
        order,
        i,
        0,
        n,
        h,
    ) by {
        assert(order.to_set().contains(n));
        let j = choose|j: int| 0 <= j < order.len() && order[j] == n;
        assert(0 <= j < i && order[j] == n);
    }
    assert forall|h: u64| ring.contains_key(h) implies first_holder(nodes, h, #[trigger] ring[h]) by {
        assert(seen_holds(nodes, order, i, 0, ring[h], h));
        assert forall|other: Seq<char>| #[trigger] live_holds(nodes, other, h) implies order::text_le(
            ring[h],
            other,
        ) by {
            assert(seen_holds(nodes, order, i, 0, other, h));
        }
    }
    assert forall|h: u64| ring.contains_key(h) == live_ring(nodes).contains_key(h) by {
        if live_ring(nodes).contains_key(h) {
            let n = choose|n: Seq<char>| first_holder(nodes, h, n);
            assert(live_holds(nodes, n, h));
            assert(seen_holds(nodes, order, i, 0, n, h));
        }
        if ring.contains_key(h) {
            lemma_holder(nodes, h, ring[h]);
        }
    }
    assert forall|h: u64| ring.contains_key(h) implies ring[h] == live_ring(nodes)[h] by {
        lemma_holder(nodes, h, ring[h]);
    }
    assert(ring =~= live_ring(nodes));
}

proof fn lemma_published(listed: Seq<ShardEntryView>, order: Seq<Seq<char>>, nodes: Nodes)
    requires
        order.no_duplicates(),
        order.to_set() == nodes.dom(),
        listed.len() == order.len(),
        forall|j: int|
            0 <= j < order.len() ==> (#[trigger] listed[j]) == entry_of(order[j], nodes[order[j]]),
    ensures
        ({
            let s = order::ranked::<ShardEntry>(listed);
            &&& forall|i: int, j: int|
                0 <= i < j < s.len() ==> order::text_le(
                    (#[trigger] s[i]).node_id,
                    (#[trigger] s[j]).node_id,
                ) && s[i].node_id != s[j].node_id
            &&& forall|i: int|
                0 <= i < s.len() ==> nodes.contains_key((#[trigger] s[i]).node_id) && s[i]
                    == entry_of(s[i].node_id, nodes[s[i].node_id])
            &&& forall|n: Seq<char>| #[trigger]
                nodes.contains_key(n) ==> s.contains(entry_of(n, nodes[n]))
        }),
{
    broadcast use vstd::seq_lib::group_to_multiset_ensures;

    let s = order::ranked::<ShardEntry>(listed);
    crate::base::order::ranked_keeps_values::<ShardEntry>(listed);
    assert forall|a: ShardEntryView, b: ShardEntryView| #[trigger]
        ShardEntry::ranks(a, b) || ShardEntry::ranks(b, a) by {
        order::bytes_le_total(encode_utf8(a.node_id), encode_utf8(b.node_id));
    }
    assert forall|a: ShardEntryView, b: ShardEntryView, c: ShardEntryView| #[trigger]
        ShardEntry::ranks(a, b) && #[trigger] ShardEntry::ranks(b, c) implies ShardEntry::ranks(
        a,
        c,
    ) by {
        order::bytes_le_transitive(
            encode_utf8(a.node_id),
            encode_utf8(b.node_id),
            encode_utf8(c.node_id),
        );
    }
    crate::base::order::ranked_is_sorted::<ShardEntry>(listed);
    assert(listed.no_duplicates()) by {
        assert forall|i: int, j: int|
            0 <= i < listed.len() && 0 <= j < listed.len() && i != j implies listed[i]
            != listed[j] by {
            assert(order[i] != order[j]);
        }
    }
    listed.lemma_multiset_has_no_duplicates();
    s.lemma_multiset_has_no_duplicates_conv();
    assert forall|x: ShardEntryView| s.contains(x) == listed.contains(x) by {
        assert(s.to_multiset().count(x) == listed.to_multiset().count(x));
    }
    assert forall|i: int| 0 <= i < s.len() implies nodes.contains_key((#[trigger] s[i]).node_id)
        && s[i] == entry_of(s[i].node_id, nodes[s[i].node_id]) by {
        assert(s.contains(s[i]));
        let j = choose|j: int| 0 <= j < listed.len() && listed[j] == s[i];
        assert(order.to_set().contains(order[j]));
    }
    assert forall|i: int, j: int| 0 <= i < j < s.len() implies order::text_le(
        (#[trigger] s[i]).node_id,
        (#[trigger] s[j]).node_id,
    ) && s[i].node_id != s[j].node_id by {
        assert(ShardEntry::ranks(s[i], s[j]));
        assert(s[i] != s[j]);
    }
    assert forall|n: Seq<char>| #[trigger] nodes.contains_key(n) implies s.contains(
        entry_of(n, nodes[n]),
    ) by {
        assert(order.to_set().contains(n));
        let j = choose|j: int| 0 <= j < order.len() && order[j] == n;
        assert(listed[j] == entry_of(n, nodes[n]));
        assert(listed.contains(listed[j]));
    }
}

proof fn lemma_holders_without(nodes: Nodes, n: Seq<char>, st: NodeStateView, h: u64)
    requires
        !nodes.contains_key(n) || nodes[n].draining || !nodes[n].vnode_hashes.contains(h),
        st.draining || !st.vnode_hashes.contains(h),
    ensures
        live_ring(nodes.insert(n, st)).contains_key(h) == live_ring(nodes).contains_key(h),
        live_ring(nodes).contains_key(h) ==> live_ring(nodes.insert(n, st))[h] == live_ring(
            nodes,
        )[h],
{
    let more = nodes.insert(n, st);
    assert forall|m: Seq<char>| #[trigger] live_holds(more, m, h) == live_holds(nodes, m, h) by {}
    if live_ring(nodes).contains_key(h) {
        let m = choose|m: Seq<char>| first_holder(nodes, h, m);
        assert(first_holder(more, h, m));
        lemma_holder(nodes, h, m);
        lemma_holder(more, h, m);
    }
    if live_ring(more).contains_key(h) {
        let m = choose|m: Seq<char>| first_holder(more, h, m);
        assert(live_holds(more, m, h));
        assert(first_holder(nodes, h, m)) by {
            assert forall|other: Seq<char>| #[trigger] live_holds(nodes, other, h) implies order::text_le(
                m,
                other,
            ) by {
                assert(live_holds(more, other, h));
            }
        }
        lemma_holder(nodes, h, m);
    }
}

/// A node that joins takes keys over, and no key changes hands otherwise.
pub proof fn join_moves_keys_only_to_the_new_node(
    nodes: Nodes,
    node_id: Seq<char>,
    st: NodeStateView,
    key: Seq<u8>,
)
    requires
        !nodes.contains_key(node_id),
        !st.draining,
        owner(nodes, key) is Some,
        owner(nodes.insert(node_id, st), key) is Some,
    ensures
        owner(nodes.insert(node_id, st), key) == owner(nodes, key) || owner(
            nodes.insert(node_id, st),
            key,
        ) == Some(node_id),
{
    let h = hash_chain::xxh3_of(key);
    let more = nodes.insert(node_id, st);
    let ring = live_ring(nodes);
    let wide = live_ring(more);
    let p = choose|p: u64| succeeds(wide, h, p);
    lemma_successor(wide, h, p);
    let holder = choose|m: Seq<char>| first_holder(more, p, m);
    lemma_holder(more, p, holder);
    if holder != node_id {
        // The point was there before, with the same holder, and is still first.
        assert forall|q: u64| #[trigger] ring.contains_key(q) implies wide.contains_key(q) by {
            lemma_wider(nodes, node_id, st, q);
        }
        assert(first_holder(nodes, p, holder)) by {
            assert(live_holds(more, holder, p));
            assert forall|other: Seq<char>| #[trigger] live_holds(nodes, other, p) implies order::text_le(
                holder,
                other,
            ) by {
                assert(live_holds(more, other, p));
            }
        }
        lemma_holder(nodes, p, holder);
        assert(succeeds(ring, h, p));
        lemma_successor(ring, h, p);
    }
}

proof fn lemma_wider(nodes: Nodes, n: Seq<char>, st: NodeStateView, h: u64)
    requires
        !nodes.contains_key(n),
        live_ring(nodes).contains_key(h),
    ensures
        live_ring(nodes.insert(n, st)).contains_key(h),
{
    let more = nodes.insert(n, st);
    let m = choose|m: Seq<char>| first_holder(nodes, h, m);
    if live_holds(more, n, h) && !order::text_le(m, n) {
        order::bytes_le_total(encode_utf8(m), encode_utf8(n));
        assert(first_holder(more, h, n)) by {
            assert forall|other: Seq<char>| #[trigger] live_holds(more, other, h) implies order::text_le(
                n,
                other,
            ) by {
                if other != n {
                    assert(live_holds(nodes, other, h));
                    order::bytes_le_transitive(encode_utf8(n), encode_utf8(m), encode_utf8(other));
                } else {
                    order::bytes_le_total(encode_utf8(n), encode_utf8(n));
                }
            }
        }
        lemma_holder(more, h, n);
    } else {
        assert(first_holder(more, h, m)) by {
            assert(live_holds(more, m, h));
            assert forall|other: Seq<char>| #[trigger] live_holds(more, other, h) implies order::text_le(
                m,
                other,
            ) by {
                if other != n {
                    assert(live_holds(nodes, other, h));
                }
            }
        }
        lemma_holder(more, h, m);
    }
}

/// A node that drains holds no key, and the others hold what they would hold
/// without it.
pub proof fn draining_nodes_hold_nothing(
    nodes: Nodes,
    node_id: Seq<char>,
    st: NodeStateView,
    key: Seq<u8>,
)
    requires
        !nodes.contains_key(node_id),
        st.draining,
    ensures
        owner(nodes.insert(node_id, st), key) == owner(nodes, key),
{
    let more = nodes.insert(node_id, st);
    assert forall|h: u64| live_ring(more).contains_key(h) == live_ring(nodes).contains_key(h) by {
        lemma_holders_without(nodes, node_id, st, h);
    }
    assert forall|h: u64| live_ring(nodes).contains_key(h) implies live_ring(more)[h]
        == live_ring(nodes)[h] by {
        lemma_holders_without(nodes, node_id, st, h);
    }
    assert(live_ring(more) =~= live_ring(nodes));
}

/// Joining, draining and leaving again restores who owns what.
pub proof fn round_trip_restores_ownership(
    ring: RingView,
    node_id: Seq<char>,
    count: u32,
    key: Seq<u8>,
)
    requires
        ring.joined(node_id, count).1 is Ok,
    ensures
        ring.joined(node_id, count).0.drained(node_id).1 is Ok,
        ring.joined(node_id, count).0.drained(node_id).0.left(node_id).1 is Ok,
        owner(ring.joined(node_id, count).0.drained(node_id).0.nodes, key) == owner(
            ring.nodes,
            key,
        ),
        owner(ring.joined(node_id, count).0.drained(node_id).0.left(node_id).0.nodes, key)
            == owner(ring.nodes, key),
{
    let a = ring.joined(node_id, count).0;
    let b = a.drained(node_id).0;
    let c = b.left(node_id).0;
    let st = b.nodes[node_id];
    assert(b.nodes =~= ring.nodes.insert(node_id, st));
    draining_nodes_hold_nothing(ring.nodes, node_id, st, key);
    assert(c.nodes =~= ring.nodes);
}

/// Copies points.
fn dup_points(points: &Vec<u64>) -> (copy: Vec<u64>)
    ensures
        copy@ == points@,
{
    let copy = points.clone();
    assert(copy@ =~= points@);
    copy
}

impl Dup for NodeState {
    fn dup(&self) -> (copy: Self) {
        NodeState {
            vnode_count: self.vnode_count,
            draining: self.draining,
            vnode_hashes: dup_points(&self.vnode_hashes),
        }
    }
}

impl ShardRing {
    /// A ring with the same members.
    pub fn copy(&self) -> (r: Self)
        requires
            self.wf(),
        ensures
            r@ == self@,
            r.wf(),
    {
        ShardRing {
            generation: self.generation,
            default_vnode_count: self.default_vnode_count,
            nodes: self.nodes.dup(),
            ring: self.ring.dup(),
        }
    }
}

/// The keys that change their owner between two rings.
pub open spec fn moved(before: Nodes, after: Nodes, keys: Seq<Seq<u8>>) -> nat
    decreases keys.len(),
{
    if keys.len() == 0 {
        0
    } else {
        moved(before, after, keys.drop_last()) + if owner(before, keys.last()) != owner(
            after,
            keys.last(),
        ) {
            1nat
        } else {
            0nat
        }
    }
}

/// Counts the keys that change their owner between two rings.
pub fn moved_keys(before: &ShardRing, after: &ShardRing, keys: &Vec<Vec<u8>>) -> (n: usize)
    requires
        before.wf(),
        after.wf(),
    ensures
        n == moved(before@.nodes, after@.nodes, keys::views(keys@)),
        n <= keys@.len(),
{
    let ghost all = keys::views(keys@);
    let mut n: usize = 0;
    let mut i: usize = 0;
    assert(all.take(0) =~= Seq::empty());
    while i < keys.len()
        invariant
            i <= keys@.len(),
            all == keys::views(keys@),
            before.wf(),
            after.wf(),
            n <= i,
            n == moved(before@.nodes, after@.nodes, all.take(i as int)),
        decreases keys.len() - i,
    {
        assert(all.take(i + 1).drop_last() =~= all.take(i as int));
        assert(all.take(i + 1).last() == keys@[i as int]@);
        let same = match (
            before.owner_of(keys[i].as_slice()),
            after.owner_of(keys[i].as_slice()),
        ) {
            (Some(a), Some(b)) => a.same(&b),
            (None, None) => true,
            _ => false,
        };
        if !same {
            n += 1;
        }
        i += 1;
    }
    assert(all.take(i as int) =~= all);
    n
}

/// Of some names one comes first.
proof fn lemma_least_name(names: Set<Seq<char>>)
    requires
        names.finite(),
        names.len() > 0,
    ensures
        exists|n: Seq<char>| is_least(names, n),
    decreases names.len(),
{
    let some = names.choose();
    let rest = names.remove(some);
    if rest.len() == 0 {
        order::bytes_le_total(encode_utf8(some), encode_utf8(some));
        assert forall|m: Seq<char>| #[trigger] names.contains(m) implies order::text_le(
            some,
            m,
        ) by {
            if m != some {
                assert(rest.contains(m));
                assert(rest.remove(m).len() == rest.len() - 1);
            }
        }
        assert(is_least(names, some));
    } else {
        lemma_least_name(rest);
        let n = choose|n: Seq<char>| is_least(rest, n);
        order::bytes_le_total(encode_utf8(some), encode_utf8(n));
        order::bytes_le_total(encode_utf8(n), encode_utf8(n));
        order::bytes_le_total(encode_utf8(some), encode_utf8(some));
        if order::text_le(n, some) {
            assert forall|m: Seq<char>| #[trigger] names.contains(m) implies order::text_le(
                n,
                m,
            ) by {
                if m != some {
                    assert(rest.contains(m));
                }
            }
            assert(is_least(names, n));
        } else {
            assert forall|m: Seq<char>| #[trigger] names.contains(m) implies order::text_le(
                some,
                m,
            ) by {
                if m != some {
                    assert(rest.contains(m));
                    order::bytes_le_transitive(
                        encode_utf8(some),
                        encode_utf8(n),
                        encode_utf8(m),
                    );
                }
            }
            assert(is_least(names, some));
        }
    }
}

spec fn is_least(names: Set<Seq<char>>, n: Seq<char>) -> bool {
    names.contains(n) && forall|m: Seq<char>| #[trigger] names.contains(m) ==> order::text_le(n, m)
}

/// Where a ring has a point from some hash on, one of them comes first.
proof fn lemma_least_point(ring: Map<u64, Seq<char>>, from: u64, q: u64)
    requires
        ring.contains_key(q),
        from <= q,
    ensures
        exists|p: u64| first_from(ring, from, p),
    decreases q - from,
{
    if ring.contains_key(from) {
        assert(first_from(ring, from, from));
    } else {
        let next = (from + 1) as u64;
        lemma_least_point(ring, next, q);
        let p = choose|p: u64| first_from(ring, next, p);
        assert(first_from(ring, from, p));
    }
}

spec fn first_from(ring: Map<u64, Seq<char>>, from: u64, p: u64) -> bool {
    ring.contains_key(p) && from <= p && forall|q: u64| #[trigger]
        ring.contains_key(q) && from <= q ==> p <= q
}

/// Every key has an owner, as soon as one live node holds a point.
pub proof fn every_key_has_an_owner(nodes: Nodes, key: Seq<u8>, node_id: Seq<char>, h: u64)
    requires
        nodes.dom().finite(),
        live_holds(nodes, node_id, h),
    ensures
        owner(nodes, key) is Some,
{
    let ring = live_ring(nodes);
    let holders = nodes.dom().filter(|n: Seq<char>| live_holds(nodes, n, h));
    assert(holders.contains(node_id));
    assert(holders.len() > 0) by {
        assert(holders.remove(node_id).len() == holders.len() - 1);
    }
    lemma_least_name(holders);
    let n = choose|n: Seq<char>| is_least(holders, n);
    assert(first_holder(nodes, h, n)) by {
        assert forall|other: Seq<char>| #[trigger] live_holds(nodes, other, h) implies order::text_le(
            n,
            other,
        ) by {
            assert(holders.contains(other));
        }
        assert(holders.contains(n));
    }
    assert(ring.contains_key(h));
    let at = hash_chain::xxh3_of(key);
    if exists|q: u64| #[trigger] ring.contains_key(q) && at <= q {
        let q = choose|q: u64| #[trigger] ring.contains_key(q) && at <= q;
        lemma_least_point(ring, at, q);
        let p = choose|p: u64| first_from(ring, at, p);
        assert(succeeds(ring, at, p));
    } else {
        lemma_least_point(ring, 0, h);
        let p = choose|p: u64| first_from(ring, 0, p);
        assert(succeeds(ring, at, p));
    }
}

/// Whoever owns a key is a member that does not drain.
pub proof fn owner_is_a_live_member(nodes: Nodes, key: Seq<u8>)
    ensures
        owner(nodes, key) matches Some(n) ==> nodes.contains_key(n) && !nodes[n].draining,
{
    let ring = live_ring(nodes);
    let h = hash_chain::xxh3_of(key);
    if owner(nodes, key) is Some {
        let p = choose|p: u64| succeeds(ring, h, p);
        assert(succeeds(ring, h, p));
        assert(ring.contains_key(p));
        let n = choose|n: Seq<char>| first_holder(nodes, p, n);
        assert(first_holder(nodes, p, n));
    }
}

/// A live member stands at a point of the ring.
pub open spec fn stands_at(nodes: Nodes, n: Seq<char>, p: u64) -> bool {
    nodes.contains_key(n) && !nodes[n].draining && nodes[n].vnode_hashes.contains(p)
}

/// A key belongs to the live member at the next point of the ring: the first point at or
/// after the hash of the key or, where there is none, the first of all. Where several members
/// stand at it, it belongs to the one whose name comes first.
pub proof fn owner_stands_at_the_next_point(nodes: Nodes, key: Seq<u8>, n: Seq<char>, p: u64)
    requires
        stands_at(nodes, n, p),
        forall|m: Seq<char>| #[trigger] stands_at(nodes, m, p) ==> order::text_le(n, m),
        ({
            let h = hash_chain::xxh3_of(key);
            if p >= h {
                forall|m: Seq<char>, q: u64| #[trigger] stands_at(nodes, m, q) && q >= h ==> p <= q
            } else {
                forall|m: Seq<char>, q: u64| #[trigger] stands_at(nodes, m, q) ==> q < h && p <= q
            }
        }),
    ensures
        owner(nodes, key) == Some(n),
{
    let ring = live_ring(nodes);
    let h = hash_chain::xxh3_of(key);
    assert forall|m: Seq<char>, q: u64| live_holds(nodes, m, q) == #[trigger] stands_at(
        nodes,
        m,
        q,
    ) by {}
    assert(first_holder(nodes, p, n)) by {
        assert forall|other: Seq<char>| #[trigger] live_holds(nodes, other, p) implies order::text_le(
            n,
            other,
        ) by {
            assert(stands_at(nodes, other, p));
        }
    }
    lemma_holder(nodes, p, n);
    assert(succeeds(ring, h, p)) by {
        assert forall|q: u64| #[trigger] ring.contains_key(q) implies (p >= h ==> (q >= h ==> p
            <= q)) && (p < h ==> q < h && p <= q) by {
            let m = choose|m: Seq<char>| first_holder(nodes, q, m);
            assert(first_holder(nodes, q, m));
            assert(stands_at(nodes, m, q));
        }
    }
    lemma_successor(ring, h, p);
}

/// A change of membership concerns one member and makes a new generation; a refused one
/// changes nothing. A member joins if it has a name and is not one yet, begins to drain if it
/// is one and does not, and leaves if it drains.
pub proof fn members_change_one_at_a_time(
    ring: RingView,
    node_id: Seq<char>,
    count: u32,
    other: Seq<char>,
)
    requires
        other != node_id,
    ensures
        ({
            let (j, rj) = ring.joined(node_id, count);
            let (d, rd) = ring.drained(node_id);
            let (l, rl) = ring.left(node_id);
            &&& rj is Ok <==> node_id.len() > 0 && !ring.nodes.contains_key(node_id)
            &&& rd is Ok <==> ring.nodes.contains_key(node_id) && !ring.nodes[node_id].draining
            &&& rl is Ok <==> ring.nodes.contains_key(node_id) && ring.nodes[node_id].draining
            &&& (rj is Err ==> j == ring) && (rd is Err ==> d == ring) && (rl is Err ==> l == ring)
            &&& rj is Ok ==> j.nodes.contains_key(node_id) && !j.nodes[node_id].draining
                && j.nodes[node_id].vnode_count == (if count == 0 {
                ring.default_vnode_count
            } else {
                count
            })
            &&& rd is Ok ==> d.nodes.contains_key(node_id) && d.nodes[node_id].draining
                && d.nodes[node_id].vnode_hashes == ring.nodes[node_id].vnode_hashes
                && d.nodes[node_id].vnode_count == ring.nodes[node_id].vnode_count
            &&& rl is Ok ==> !l.nodes.contains_key(node_id)
            &&& ring.nodes.contains_key(other) == j.nodes.contains_key(other)
                && ring.nodes.contains_key(other) == d.nodes.contains_key(other)
                && ring.nodes.contains_key(other) == l.nodes.contains_key(other)
            &&& ring.nodes.contains_key(other) ==> j.nodes[other] == ring.nodes[other]
                && d.nodes[other] == ring.nodes[other] && l.nodes[other] == ring.nodes[other]
            &&& ring.generation < u64::MAX ==> (rj is Ok ==> j.generation == ring.generation + 1)
                && (rd is Ok ==> d.generation == ring.generation + 1) && (rl is Ok ==> l.generation
                == ring.generation + 1)
        }),
{
}

proof fn lemma_dedup(s: Seq<u64>)
    ensures
        forall|h: u64| #[trigger] dedup(s).contains(h) == s.contains(h),
        s.len() > 0 ==> dedup(s).len() > 0 && dedup(s).last() == s.last(),
        dedup(s).len() <= s.len(),
    decreases s.len(),
{
    if s.len() > 0 {
        let init = s.drop_last();
        lemma_dedup(init);
        let rest = dedup(init);
        let d = dedup(s);
        assert(s =~= init.push(s.last()));
        assert forall|h: u64| #[trigger] d.contains(h) == s.contains(h) by {
            assert(s.contains(h) == (init.contains(h) || h == s.last())) by {
                if init.contains(h) {
                    let k = choose|k: int| 0 <= k < init.len() && init[k] == h;
                    assert(s[k] == h);
                }
                if s.contains(h) {
                    let k = choose|k: int| 0 <= k < s.len() && s[k] == h;
                    if k < init.len() {
                        assert(init[k] == h);
                    }
                }
                assert(s[s.len() - 1] == s.last());
            }
            if rest.len() > 0 && rest.last() == s.last() {
                assert(rest[rest.len() - 1] == s.last());
            } else {
                if rest.contains(h) {
                    let k = choose|k: int| 0 <= k < rest.len() && rest[k] == h;
                    assert(d[k] == h);
                }
                if d.contains(h) {
                    let k = choose|k: int| 0 <= k < d.len() && d[k] == h;
                    if k < rest.len() {
                        assert(rest[k] == h);
                    }
                }
                assert(d[rest.len() as int] == s.last());
            }
        }
    }
}

proof fn lemma_padded(points: Seq<u64>, node_id: Seq<char>, salt: u64, count: nat, h: u64)
    ensures
        points.contains(h) ==> padded(points, node_id, salt, count).contains(h),
        points.len() <= count ==> padded(points, node_id, salt, count).len() <= count,
    decreases u64::MAX - salt,
{
    if !(points.len() >= count || salt == u64::MAX) {
        let x = salted_hash(node_id, salt);
        let next = if points.contains(x) {
            points
        } else {
            points.push(x)
        };
        if points.contains(h) {
            let k = choose|k: int| 0 <= k < points.len() && points[k] == h;
            assert(next[k] == h);
        }
        lemma_padded(next, node_id, (salt + 1) as u64, count, h);
    }
}

/// A member that joins stands at the hash of its name with each number below its count, and
/// at no more points than that.
pub proof fn joining_takes_the_points_of_the_name(
    ring: RingView,
    node_id: Seq<char>,
    count: u32,
    i: u32,
)
    requires
        ring.joined(node_id, count).1 is Ok,
        i < (if count == 0 {
            ring.default_vnode_count
        } else {
            count
        }),
    ensures
        ({
            let st = ring.joined(node_id, count).0.nodes[node_id];
            &&& st.vnode_hashes.contains(
                hash_chain::xxh3_of(encode_utf8(node_id) + spec_u32_to_le_bytes(i)),
            )
            &&& st.vnode_hashes.len() <= st.vnode_count
            &&& forall|a: int, b: int|
                0 <= a < b < st.vnode_hashes.len() ==> st.vnode_hashes[a] <= st.vnode_hashes[b]
        }),
{
    broadcast use vstd::seq_lib::group_to_multiset_ensures;

    let n = if count == 0 {
        ring.default_vnode_count
    } else {
        count
    };
    let own = Seq::new(n as nat, |i: int| vnode_hash(node_id, i as u32));
    let h = vnode_hash(node_id, i);
    assert(own[i as int] == h);
    assert(own.contains(h));
    let sorted = order::ranked::<u64>(own);
    order::ranked_keeps_values::<u64>(own);
    assert(own.to_multiset().count(h) > 0);
    assert(sorted.contains(h));
    lemma_dedup(sorted);
    let d = dedup(sorted);
    lemma_padded(d, node_id, 0, n as nat, h);
    let full = padded(d, node_id, 0, n as nat);
    order::ranked_keeps_values::<u64>(full);
    assert(full.to_multiset().count(h) > 0);
    let r = order::ranked::<u64>(full);
    assert(r.to_multiset().count(h) > 0);
    order::ranked_is_sorted::<u64>(full);
    assert forall|a: int, b: int| 0 <= a < b < r.len() implies r[a] <= r[b] by {
        assert(<u64 as Ranked>::ranks(r[a], r[b]));
    }
}

} // verus!
