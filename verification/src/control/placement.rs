//! Where blocks should be: a chain is placed ahead of its use on the node that a
//! hash of its anchor prefers, and after traffic on the nodes that hit it. What was
//! ordered once is not ordered again until it has left.

use vstd::bytes::*;
use vstd::prelude::*;
use vstd::string::*;
use vstd::utf8::*;

use crate::base::keys;
use crate::base::keys::{to_bytes, Dup, Key};
use crate::base::listing;
use crate::base::listing::{sorted_keys, Ordered};
use crate::base::order;
use crate::base::order::{bytes_leq, sort_ranked, text_leq, Ranked};
use crate::base::table::Table;
use crate::base::text::text;
use crate::control::authority::{Authority, AuthorityView};
use crate::control::namespace::{BlockKey, BlockKeyView, NamespaceKey};
use crate::control::pool;
use crate::control::pool::{id_or_public, resolve_pool_kind, Mark, Pool, PoolView};
use crate::control::tier;
use crate::control::tier::has_tier_on;
use crate::proto::{KvBlockId, KvBlockIdView, Tier};

verus! {

/// Hits of a block on a node from which it is placed there.
pub const FOLLOW_HIT_THRESHOLD: u32 = 2;

/// How many blocks one report can have placed, besides their ancestors.
pub const FOLLOW_EVAL_LIMIT: usize = 16;

/// The anchor of a chain is at most this deep.
pub const ANCHOR_DEPTH_CAP: usize = 8;

/// Where FNV-1a starts.
pub const FNV_OFFSET: u64 = 14695981039346656037;

/// The factor of FNV-1a.
pub const FNV_PRIME: u64 = 1099511628211;

/// FNV-1a over 64 bits, continued from a state.
pub open spec fn fnv1a(h: u64, bytes: Seq<u8>) -> u64
    decreases bytes.len(),
{
    if bytes.len() == 0 {
        h
    } else {
        (fnv1a(h, bytes.drop_last()) ^ (bytes.last() as u64)).wrapping_mul(FNV_PRIME)
    }
}

/// Continues FNV-1a over more bytes.
pub fn fnv1a64_update(h: u64, bytes: &[u8]) -> (r: u64)
    ensures
        r == fnv1a(h, bytes@),
{
    let mut r: u64 = h;
    let mut i: usize = 0;
    while i < bytes.len()
        invariant
            i <= bytes@.len(),
            r == fnv1a(h, bytes@.take(i as int)),
        decreases bytes@.len() - i,
    {
        assert(bytes@.take(i + 1).drop_last() =~= bytes@.take(i as int));
        r = (r ^ (bytes[i] as u64)).wrapping_mul(FNV_PRIME);
        i += 1;
    }
    assert(bytes@.take(i as int) =~= bytes@);
    r
}

/// How much a key prefers a node: FNV-1a over the key's length, the key and the
/// node's name.
pub open spec fn score(key: Seq<u8>, node_id: Seq<char>) -> u64 {
    fnv1a(
        fnv1a(fnv1a(FNV_OFFSET, spec_u64_to_le_bytes(key.len() as u64)), key),
        encode_utf8(node_id),
    )
}

/// How much a key prefers a node.
pub fn hrw_score(key: &[u8], node: &str) -> (s: u64)
    ensures
        s == score(key@, node@),
{
    let len = u64_to_le_bytes(key.len() as u64);
    let h = fnv1a64_update(FNV_OFFSET, len.as_slice());
    let h = fnv1a64_update(h, key);
    fnv1a64_update(h, node.as_bytes())
}

/// The block that stands for a chain: its last, but no deeper than the cap.
pub open spec fn anchor_of(prefix: Seq<Seq<u8>>) -> Option<Seq<u8>> {
    if prefix.len() == 0 {
        None
    } else if prefix.len() < ANCHOR_DEPTH_CAP {
        Some(prefix.last())
    } else {
        Some(prefix[ANCHOR_DEPTH_CAP - 1])
    }
}

/// The block that stands for a chain.
pub fn chain_anchor(prefix_hashes: &[Vec<u8>]) -> (r: Option<&Vec<u8>>)
    ensures
        match r {
            Some(h) => anchor_of(keys::views(prefix_hashes@)) == Some(h@),
            None => anchor_of(keys::views(prefix_hashes@)) is None,
        },
{
    if prefix_hashes.len() == 0 {
        return None;
    }
    let depth: usize = if prefix_hashes.len() < ANCHOR_DEPTH_CAP {
        prefix_hashes.len()
    } else {
        ANCHOR_DEPTH_CAP
    };
    Some(&prefix_hashes[depth - 1])
}

/// The node is preferred: no score is higher, and among equal scores its name comes
/// first.
pub open spec fn beats(anchor: Seq<u8>, a: Seq<char>, b: Seq<char>) -> bool {
    score(anchor, a) > score(anchor, b) || (score(anchor, a) == score(anchor, b) && order::text_le(
        a,
        b,
    ))
}

/// The preferred one of some nodes.
pub open spec fn is_home(anchor: Seq<u8>, nodes: Set<Seq<char>>, home: Seq<char>) -> bool {
    nodes.contains(home) && forall|n: Seq<char>| #[trigger]
        nodes.contains(n) ==> beats(anchor, home, n)
}

/// Picks the node with the highest score; of several the one whose name comes
/// first. Scores stand in the order of the nodes.
pub fn pick_home(nodes: &Vec<String>, scores: &Vec<u64>) -> (r: Option<String>)
    requires
        nodes@.len() == scores@.len(),
    ensures
        match r {
            None => nodes@.len() == 0,
            Some(h) => exists|i: int|
                #![trigger nodes@[i]]
                0 <= i < nodes@.len() && nodes@[i]@ == h@ && forall|j: int|
                    0 <= j < nodes@.len() ==> (scores@[i] > #[trigger] scores@[j] || (scores@[i]
                        == scores@[j] && order::text_le(nodes@[i]@, nodes@[j]@))),
        },
{
    if nodes.len() == 0 {
        return None;
    }
    let mut best: usize = 0;
    let mut i: usize = 1;
    proof {
        String::rank_total(nodes@[0]@, nodes@[0]@);
    }
    while i < nodes.len()
        invariant
            1 <= i <= nodes@.len() == scores@.len(),
            best < i,
            forall|j: int|
                0 <= j < i ==> (scores@[best as int] > #[trigger] scores@[j] || (
                scores@[best as int] == scores@[j] && order::text_le(
                    nodes@[best as int]@,
                    nodes@[j]@,
                ))),
        decreases nodes@.len() - i,
    {
        let wins = scores[i] > scores[best] || (scores[i] == scores[best] && !text_leq(
            nodes[best].as_str(),
            nodes[i].as_str(),
        ));
        proof {
            String::rank_total(nodes@[best as int]@, nodes@[i as int]@);
            String::rank_total(nodes@[i as int]@, nodes@[i as int]@);
            if wins {
                assert forall|j: int| 0 <= j < i + 1 implies (scores@[i as int]
                    > #[trigger] scores@[j] || (scores@[i as int] == scores@[j] && order::text_le(
                    nodes@[i as int]@,
                    nodes@[j]@,
                ))) by {
                    if j < i && scores@[i as int] == scores@[best as int] && scores@[j]
                        == scores@[best as int] {
                        String::rank_transitive(
                            nodes@[i as int]@,
                            nodes@[best as int]@,
                            nodes@[j]@,
                        );
                    }
                }
            }
        }
        if wins {
            best = i;
        }
        i += 1;
    }
    Some(nodes[best].dup())
}

/// A block that a report may have placed, with its hits.
pub struct Candidate {
    pub key: BlockKey,
    pub count: u32,
}

/// What a candidate stands for.
#[verifier::ext_equal]
pub struct CandidateView {
    pub key: BlockKeyView,
    pub count: u32,
}

impl View for Candidate {
    type V = CandidateView;

    open spec fn view(&self) -> CandidateView {
        CandidateView { key: self.key@, count: self.count }
    }
}

impl Ranked for Candidate {
    open spec fn ranks(a: CandidateView, b: CandidateView) -> bool {
        a.count > b.count || (a.count == b.count && order::bytes_le(a.key.flat, b.key.flat))
    }

    fn leq(&self, other: &Self) -> (le: bool) {
        self.count > other.count || (self.count == other.count && bytes_leq(
            self.key.flat.as_slice(),
            other.key.flat.as_slice(),
        ))
    }
}

/// A block to place.
pub struct Step {
    pub key: BlockKey,
    pub id: KvBlockId,
}

/// What a step stands for.
#[verifier::ext_equal]
pub struct StepView {
    pub key: BlockKeyView,
    pub id: KvBlockIdView,
}

impl View for Step {
    type V = StepView;

    open spec fn view(&self) -> StepView {
        StepView { key: self.key@, id: self.id@ }
    }
}

/// A hash is among those to place.
pub open spec fn planned(steps: Seq<StepView>, flat: Seq<u8>) -> bool {
    exists|i: int| 0 <= i < steps.len() && (#[trigger] steps[i]).key.flat == flat
}

/// A block is among the candidates.
pub open spec fn nominated(cands: Seq<CandidateView>, key: BlockKeyView) -> bool {
    exists|i: int| 0 <= i < cands.len() && (#[trigger] cands[i]).key == key
}

/// The blocks of a chain that are there but not on the node and not planned yet
/// are planned, from the root on.
pub open spec fn chain_steps(
    p: PoolView,
    key: BlockKeyView,
    node_id: Seq<char>,
    chain: Seq<Seq<u8>>,
    steps: Seq<StepView>,
) -> Seq<StepView>
    decreases chain.len(),
{
    if chain.len() == 0 {
        steps
    } else {
        let s = chain_steps(p, key, node_id, chain.drop_last(), steps);
        let flat = chain.last();
        if p.by_flat.contains_key(flat) && !tier::on_tier_of(
            p.by_flat[flat].meta.locations,
            Tier::L0,
            node_id,
        ) && !planned(s, flat) {
            s.push(
                StepView {
                    key: BlockKeyView { flat, ..key },
                    id: pool::id_or(
                        p.by_flat[flat].meta.id,
                        key.model_id,
                        key.revision,
                        key.pool_kind,
                        flat,
                    ),
                },
            )
        } else {
            s
        }
    }
}

/// Marks for the blocks of a plan.
pub open spec fn marked(
    marks: Set<(Seq<u8>, Seq<char>)>,
    ids: Seq<KvBlockIdView>,
    node_id: Seq<char>,
) -> Set<(Seq<u8>, Seq<char>)>
    decreases ids.len(),
{
    if ids.len() == 0 {
        marks
    } else {
        marked(marks, ids.drop_last(), node_id).insert((ids.last().block_hash, node_id))
    }
}

/// The blocks of a prefix that are there but neither on the node nor ordered there.
pub open spec fn missing_on(
    p: PoolView,
    k: (Seq<char>, Seq<char>),
    pool_kind: i32,
    node_id: Seq<char>,
    prefix: Seq<Seq<u8>>,
) -> Seq<KvBlockIdView>
    decreases prefix.len(),
{
    if prefix.len() == 0 {
        Seq::empty()
    } else {
        let rest = missing_on(p, k, pool_kind, node_id, prefix.drop_last());
        let flat = prefix.last();
        if p.by_flat.contains_key(flat) && !tier::on_tier_of(
            p.by_flat[flat].meta.locations,
            Tier::L0,
            node_id,
        ) && !p.marks.contains((flat, node_id)) {
            rest.push(pool::id_or(p.by_flat[flat].meta.id, k.0, k.1, pool_kind, flat))
        } else {
            rest
        }
    }
}

/// One more hit; counts stop at their maximum.
pub open spec fn one_more(n: u32) -> u32 {
    if n == u32::MAX {
        n
    } else {
        (n + 1) as u32
    }
}

/// All hits of a block, as far as numbers reach.
pub open spec fn hits_sum(m: Map<Seq<char>, u32>, nodes: Seq<Seq<char>>) -> u64
    decreases nodes.len(),
{
    if nodes.len() == 0 {
        0
    } else {
        let rest = hits_sum(m, nodes.drop_last());
        if rest + m[nodes.last()] > u64::MAX {
            u64::MAX
        } else {
            (rest + m[nodes.last()]) as u64
        }
    }
}

impl PoolView {
    /// One more hit of a block on a node.
    pub open spec fn hit(self, flat: Seq<u8>, node_id: Seq<char>) -> PoolView {
        let on = if self.hits.contains_key(flat) {
            self.hits[flat]
        } else {
            Map::empty()
        };
        PoolView {
            hits: self.hits.insert(
                flat,
                on.insert(node_id, one_more(self.hits_on(flat, node_id))),
            ),
            ..self
        }
    }

    /// All hits of a block.
    pub open spec fn hits_all(self, flat: Seq<u8>) -> u64 {
        if self.hits.contains_key(flat) {
            hits_sum(self.hits[flat], listing::listing::<String>(self.hits[flat].dom()))
        } else {
            0
        }
    }
}

/// A block by its heat.
pub struct Hot {
    pub count: u64,
    pub id: KvBlockId,
}

/// What a hot block stands for.
#[verifier::ext_equal]
pub struct HotView {
    pub count: u64,
    pub id: KvBlockIdView,
}

impl View for Hot {
    type V = HotView;

    open spec fn view(&self) -> HotView {
        HotView { count: self.count, id: self.id@ }
    }
}

impl Ranked for Hot {
    open spec fn ranks(a: HotView, b: HotView) -> bool {
        a.count > b.count || (a.count == b.count && order::bytes_le(a.id.block_hash, b.id.block_hash))
    }

    fn leq(&self, other: &Self) -> (le: bool) {
        self.count > other.count || (self.count == other.count && bytes_leq(
            self.id.block_hash.as_slice(),
            other.id.block_hash.as_slice(),
        ))
    }
}

/// The first of a sequence, at most so many.
pub open spec fn at_most<A>(s: Seq<A>, n: nat) -> Seq<A> {
    if s.len() <= n {
        s
    } else {
        s.take(n as int)
    }
}

impl AuthorityView {
    /// The nodes that take blocks.
    pub open spec fn ready(self) -> Set<Seq<char>> {
        Set::new(
            |n: Seq<char>| self.shard.nodes.contains_key(n) && !self.shard.nodes[n].draining,
        )
    }

    /// The node that a chain prefers.
    pub open spec fn home_of(self, anchor: Seq<u8>) -> Seq<char> {
        choose|h: Seq<char>| is_home(anchor, self.ready(), h)
    }

    /// A chain is placed ahead of its use on the node that it prefers.
    pub open spec fn preplaced(
        self,
        k: (Seq<char>, Seq<char>),
        raw_kind: i32,
        prefix: Seq<Seq<u8>>,
    ) -> (AuthorityView, Option<(Seq<char>, Seq<KvBlockIdView>)>) {
        if anchor_of(prefix) is Some && self.ready().len() > 0 && pool::pool_kind_of(raw_kind) is Ok
            && self.pool_at(k, pool::pool_kind_of(raw_kind)->Ok_0) is Some {
            let pk = pool::pool_kind_of(raw_kind)->Ok_0;
            let home = self.home_of(anchor_of(prefix)->0);
            let p = self.pool_at(k, pk)->0;
            let plan = missing_on(p, k, pk, home, prefix);
            if plan.len() == 0 {
                (self, None)
            } else {
                (
                    self.with_pool_at(
                        k,
                        pk,
                        PoolView { marks: marked(p.marks, plan, home), ..p },
                    ),
                    Some((home, plan)),
                )
            }
        } else {
            (self, None)
        }
    }

    /// The block of an address, where it is known, with its pool resolved.
    pub open spec fn resolved(self, id: KvBlockIdView) -> Option<BlockKeyView> {
        match pool::pool_kind_of(id.pool_kind) {
            Err(_) => None,
            Ok(pk) => {
                let b = BlockKeyView {
                    model_id: id.model_id,
                    revision: id.revision,
                    pool_kind: pk,
                    flat: id.block_hash,
                };
                if self.has_block(b) {
                    Some(b)
                } else {
                    None
                }
            },
        }
    }

    /// The block is hot on the node but neither there nor ordered there.
    pub open spec fn wanted(self, node_id: Seq<char>, b: BlockKeyView) -> bool {
        let p = self.pool_at(b.space(), b.pool_kind)->0;
        p.hits_on(b.flat, node_id) >= FOLLOW_HIT_THRESHOLD && !p.marks.contains(
            (b.flat, node_id),
        ) && !tier::on_tier_of(p.by_flat[b.flat].meta.locations, Tier::L0, node_id)
    }

    /// The blocks of a report that may be placed, each once.
    pub open spec fn candidates(self, node_id: Seq<char>, ids: Seq<KvBlockIdView>) -> Seq<
        CandidateView,
    >
        decreases ids.len(),
    {
        if ids.len() == 0 {
            Seq::empty()
        } else {
            let rest = self.candidates(node_id, ids.drop_last());
            match self.resolved(ids.last()) {
                None => rest,
                Some(b) => if self.wanted(node_id, b) && !nominated(rest, b) {
                    rest.push(
                        CandidateView {
                            key: b,
                            count: self.pool_at(b.space(), b.pool_kind)->0.hits_on(
                                b.flat,
                                node_id,
                            ),
                        },
                    )
                } else {
                    rest
                },
            }
        }
    }

    /// The steps for candidates and their ancestors.
    pub open spec fn steps(self, node_id: Seq<char>, cands: Seq<CandidateView>) -> Seq<StepView>
        decreases cands.len(),
    {
        if cands.len() == 0 {
            Seq::empty()
        } else {
            let b = cands.last().key;
            chain_steps(
                self.pool_at(b.space(), b.pool_kind)->0,
                b,
                node_id,
                self.block(b).chain,
                self.steps(node_id, cands.drop_last()),
            )
        }
    }

    /// The marks of steps are set.
    pub open spec fn steps_marked(self, node_id: Seq<char>, steps: Seq<StepView>) -> AuthorityView
        decreases steps.len(),
    {
        if steps.len() == 0 {
            self
        } else {
            let a = self.steps_marked(node_id, steps.drop_last());
            let b = steps.last().key;
            let p = a.pool_at(b.space(), b.pool_kind)->0;
            a.with_pool_at(
                b.space(),
                b.pool_kind,
                PoolView { marks: p.marks.insert((b.flat, node_id)), ..p },
            )
        }
    }

    /// The steps that a report calls for.
    pub open spec fn follow_steps(self, node_id: Seq<char>, ids: Seq<KvBlockIdView>) -> Seq<
        StepView,
    > {
        if node_id.len() == 0 {
            Seq::empty()
        } else {
            self.steps(
                node_id,
                at_most(
                    order::ranked::<Candidate>(self.candidates(node_id, ids)),
                    FOLLOW_EVAL_LIMIT as nat,
                ),
            )
        }
    }

    /// Hits are counted; strangers are passed over.
    pub open spec fn hits_counted(self, node_id: Seq<char>, ids: Seq<KvBlockIdView>) -> AuthorityView
        decreases ids.len(),
    {
        if ids.len() == 0 {
            self
        } else {
            let a = self.hits_counted(node_id, ids.drop_last());
            match a.resolved(ids.last()) {
                None => a,
                Some(b) => a.with_pool_at(
                    b.space(),
                    b.pool_kind,
                    a.pool_at(b.space(), b.pool_kind)->0.hit(b.flat, node_id),
                ),
            }
        }
    }

    /// The hit blocks that a node lacks, of some.
    pub open spec fn hot_of(self, node_id: Seq<char>, blocks: Seq<BlockKeyView>) -> Seq<HotView>
        decreases blocks.len(),
    {
        if blocks.len() == 0 {
            Seq::empty()
        } else {
            let rest = self.hot_of(node_id, blocks.drop_last());
            let b = blocks.last();
            let n = self.pool_at(b.space(), b.pool_kind)->0.hits_all(b.flat);
            if n > 0 && !tier::on_tier_of(self.block(b).meta.locations, Tier::L0, node_id) {
                rest.push(HotView { count: n, id: self.block_id(b) })
            } else {
                rest
            }
        }
    }

    /// The hottest blocks that a node lacks.
    pub open spec fn warmup(self, node_id: Seq<char>, k: nat) -> Seq<KvBlockIdView> {
        at_most(
            order::ranked::<Hot>(self.hot_of(node_id, self.all_blocks())).map_values(|h: HotView| h.id),
            k,
        )
    }
}

/// A plan for one node, where there is something to place.
pub open spec fn plan_for_node(
    plans: Seq<(String, Vec<KvBlockId>)>,
    node_id: Seq<char>,
    steps: Seq<StepView>,
) -> bool {
    if steps.len() == 0 {
        plans.len() == 0
    } else {
        plans.len() == 1 && plans[0].0@ == node_id && keys::views(plans[0].1@) == steps.map_values(
            |s: StepView| s.id,
        )
    }
}

fn is_planned(steps: &Vec<Step>, flat: &Vec<u8>) -> (b: bool)
    ensures
        b == planned(keys::views(steps@), flat@),
{
    let ghost all = keys::views(steps@);
    let mut i: usize = 0;
    while i < steps.len()
        invariant
            i <= steps@.len() == all.len(),
            all == keys::views(steps@),
            forall|j: int| 0 <= j < i ==> (#[trigger] all[j]).key.flat != flat@,
        decreases steps@.len() - i,
    {
        assert(all[i as int] == steps@[i as int]@);
        if steps[i].key.flat.same(flat) {
            return true;
        }
        i += 1;
    }
    false
}

fn is_nominated(cands: &Vec<Candidate>, key: &BlockKey) -> (b: bool)
    ensures
        b == nominated(keys::views(cands@), key@),
{
    let ghost all = keys::views(cands@);
    let mut i: usize = 0;
    while i < cands.len()
        invariant
            i <= cands@.len() == all.len(),
            all == keys::views(cands@),
            forall|j: int| 0 <= j < i ==> (#[trigger] all[j]).key != key@,
        decreases cands@.len() - i,
    {
        assert(all[i as int] == cands@[i as int]@);
        if cands[i].key.same(key) {
            return true;
        }
        i += 1;
    }
    false
}

/// Plans the blocks of a chain.
fn push_chain_steps(
    p: &Pool,
    key: &BlockKey,
    node_id: &str,
    chain: &Vec<Vec<u8>>,
    steps: &mut Vec<Step>,
)
    ensures
        keys::views(final(steps)@) == chain_steps(
            p@,
            key@,
            node_id@,
            keys::views(chain@),
            keys::views(old(steps)@),
        ),
{
    let ghost all = keys::views(chain@);
    let ghost start = keys::views(steps@);
    let mut i: usize = 0;
    assert(all.take(0) =~= Seq::empty());
    while i < chain.len()
        invariant
            i <= chain@.len() == all.len(),
            all == keys::views(chain@),
            keys::views(steps@) == chain_steps(p@, key@, node_id@, all.take(i as int), start),
        decreases chain@.len() - i,
    {
        let flat = &chain[i];
        proof {
            assert(all.take(i + 1).drop_last() =~= all.take(i as int));
            assert(all[i as int] == flat@);
        }
        if let Some(e) = p.by_flat.get(flat) {
            if !has_tier_on(&e.meta.locations, Tier::L0, node_id) && !is_planned(steps, flat) {
                let ghost before = keys::views(steps@);
                let s = Step {
                    key: BlockKey {
                        model_id: key.model_id.dup(),
                        revision: key.revision.dup(),
                        pool_kind: key.pool_kind,
                        flat: flat.dup(),
                    },
                    id: id_or_public(
                        &e.meta.id,
                        key.model_id.as_str(),
                        key.revision.as_str(),
                        key.pool_kind,
                        flat,
                    ),
                };
                let ghost v = s@;
                steps.push(s);
                assert(keys::views(steps@) =~= before.push(v));
            }
        }
        i += 1;
    }
    assert(all.take(i as int) =~= all);
}

/// All hits of a block.
fn sum_hits(m: &Table<String, u32>) -> (n: u64)
    ensures
        n == hits_sum(m@, listing::listing::<String>(m@.dom())),
{
    let nodes = sorted_keys(m);
    let ghost all = keys::views(nodes@);
    let mut n: u64 = 0;
    let mut i: usize = 0;
    while i < nodes.len()
        invariant
            i <= nodes@.len(),
            all == keys::views(nodes@),
            listing::lists::<String>(all, m@.dom()),
            n == hits_sum(m@, all.take(i as int)),
        decreases nodes@.len() - i,
    {
        proof {
            assert(all.take(i + 1).drop_last() =~= all.take(i as int));
            assert(all[i as int] == nodes@[i as int]@);
            assert(all.to_set().contains(all[i as int]));
        }
        if let Some(c) = m.get(&nodes[i]) {
            n = if n > u64::MAX - *c as u64 {
                u64::MAX
            } else {
                n + *c as u64
            };
        }
        i += 1;
    }
    assert(all.take(i as int) =~= all);
    n
}

impl Pool {
    /// Counts one more hit of a block on a node.
    pub fn count_hit(&mut self, flat: &Vec<u8>, node_id: &str)
        requires
            old(self)@.wf(),
        ensures
            final(self)@ == old(self)@.hit(flat@, node_id@),
            final(self)@.wf(),
    {
        let node = text(node_id);
        let n: u32 = self.hits_on(flat, &node);
        let mut on = match self.hits.remove(flat) {
            Some(m) => m,
            None => Table::new(),
        };
        on.insert(
            node,
            if n < u32::MAX {
                n + 1
            } else {
                n
            },
        );
        self.hits.insert(flat.dup(), on);
        assert(self@ =~= old(self)@.hit(flat@, node_id@));
        assert(self@.refs == old(self)@.refs);
    }

    /// All hits of a block.
    pub fn all_hits(&self, flat: &Vec<u8>) -> (n: u64)
        ensures
            n == self@.hits_all(flat@),
    {
        match self.hits.get(flat) {
            Some(m) => sum_hits(m),
            None => 0,
        }
    }
}

impl Authority {
    /// The block of an address, where it is known.
    fn resolve(&self, id: &KvBlockId) -> (r: Option<BlockKey>)
        ensures
            keys::opt(r) == self@.resolved(id@),
    {
        let pk: i32 = match resolve_pool_kind(id.pool_kind) {
            Ok(pk) => pk,
            Err(_) => return None,
        };
        let b = BlockKey {
            model_id: id.model_id.dup(),
            revision: id.revision.dup(),
            pool_kind: pk,
            flat: id.block_hash.dup(),
        };
        if self.entry_by(&b).is_some() {
            Some(b)
        } else {
            None
        }
    }

    /// Plans to place a chain on the node that it prefers: the blocks that are
    /// there but neither on that node nor ordered there.
    pub fn preplace_on_register(
        &mut self,
        model_id: &str,
        revision: &str,
        pool_kind: i32,
        prefix_hashes: &[Vec<u8>],
    ) -> (r: Option<(String, Vec<KvBlockId>)>)
        requires
            old(self).wf(),
        ensures
            ({
                let (a, plan) = old(self)@.preplaced(
                    (model_id@, revision@),
                    pool_kind,
                    keys::views(prefix_hashes@),
                );
                &&& final(self)@ == a
                &&& match r {
                    None => plan is None,
                    Some((home, ids)) => plan == Some((home@, keys::views(ids@))),
                }
            }),
            final(self).wf(),
    {
        let ghost prefix = keys::views(prefix_hashes@);
        let anchor = match chain_anchor(prefix_hashes) {
            Some(a) => a.dup(),
            None => return None,
        };
        let nodes = self.shard.ready_nodes();
        let home = match self.pick_ready(&nodes, &anchor) {
            Some(h) => h,
            None => return None,
        };
        let pk: i32 = match resolve_pool_kind(pool_kind) {
            Ok(pk) => pk,
            Err(_) => return None,
        };
        let key = NamespaceKey::new(model_id, revision);
        let mut pool = match self.take_pool(&key, pk) {
            Some(p) => p,
            None => return None,
        };
        let ghost p = pool@;
        let plan = collect_missing(&pool, &key, pk, &home, prefix_hashes);
        let ghost ids = keys::views(plan@);
        let mut i: usize = 0;
        assert(ids.take(0) =~= Seq::empty());
        while i < plan.len()
            invariant
                i <= plan@.len(),
                ids == keys::views(plan@),
                pool@ == (PoolView { marks: marked(p.marks, ids.take(i as int), home@), ..p }),
            decreases plan@.len() - i,
        {
            assert(ids.take(i + 1).drop_last() =~= ids.take(i as int));
            pool.marks.insert(Mark { flat: plan[i].block_hash.dup(), node_id: home.dup() });
            i += 1;
        }
        assert(ids.take(i as int) =~= ids);
        assert(pool@.refs == p.refs && pool@.inactive == p.inactive);
        assert(plan@.len() == 0 ==> pool@ =~= p);
        self.put_pool(&key, pk, pool);
        if plan.len() == 0 {
            assert(self@ =~= old(self)@) by {
                let ns = old(self)@.spaces[key@];
                assert(ns.with_pool(pk, p) =~= ns);
                assert(self@ == old(self)@.with_pool_at(key@, pk, p));
                assert(self@.spaces =~= old(self)@.spaces);
            }
            return None;
        }
        Some((home, plan))
    }

    /// Picks the ready node that an anchor prefers.
    fn pick_ready(&self, nodes: &Vec<String>, anchor: &Vec<u8>) -> (r: Option<String>)
        requires
            keys::views(nodes@).no_duplicates(),
            forall|n: Seq<char>| #[trigger]
                keys::views(nodes@).contains(n) <==> self@.shard.nodes.contains_key(n)
                    && !self@.shard.nodes[n].draining,
        ensures
            match r {
                None => self@.ready().len() == 0,
                Some(h) => self@.ready().len() > 0 && h@ == self@.home_of(anchor@),
            },
    {
        let mut scores: Vec<u64> = Vec::with_capacity(nodes.len());
        let mut i: usize = 0;
        while i < nodes.len()
            invariant
                i <= nodes@.len(),
                scores@.len() == i,
                forall|j: int|
                    0 <= j < i ==> #[trigger] scores@[j] == score(anchor@, nodes@[j]@),
            decreases nodes@.len() - i,
        {
            scores.push(hrw_score(anchor.as_slice(), nodes[i].as_str()));
            i += 1;
        }
        let home = pick_home(nodes, &scores);
        proof {
            let ns = keys::views(nodes@);
            ns.unique_seq_to_set();
            assert(ns.to_set() =~= self@.ready());
            if home is Some {
                let h = home->0;
                let w = choose|i: int|
                    #![trigger nodes@[i]]
                    0 <= i < nodes@.len() && nodes@[i]@ == h@ && forall|j: int|
                        0 <= j < nodes@.len() ==> (scores@[i] > #[trigger] scores@[j] || (
                        scores@[i] == scores@[j] && order::text_le(nodes@[i]@, nodes@[j]@)));
                assert(ns[w] == h@);
                assert(is_home(anchor@, self@.ready(), h@)) by {
                    assert(ns.to_set().contains(h@));
                    assert forall|n: Seq<char>| #[trigger] self@.ready().contains(n) implies beats(
                        anchor@,
                        h@,
                        n,
                    ) by {
                        assert(ns.to_set().contains(n));
                        let j = choose|j: int| 0 <= j < ns.len() && ns[j] == n;
                        assert(scores@[j] == score(anchor@, nodes@[j]@));
                        assert(scores@[w] == score(anchor@, nodes@[w]@));
                    }
                }
                let g = self@.home_of(anchor@);
                assert(is_home(anchor@, self@.ready(), g));
                assert(beats(anchor@, g, h@) && beats(anchor@, h@, g));
                String::rank_antisymmetric(g, h@);
            }
        }
        home
    }

    /// Finds the blocks of a report that may be placed.
    fn nominate(&self, node_id: &str, ids: &[KvBlockId]) -> (cands: Vec<Candidate>)
        ensures
            keys::views(cands@) == self@.candidates(node_id@, keys::views(ids@)),
            forall|i: int|
                0 <= i < cands@.len() ==> self@.has_block((#[trigger] keys::views(cands@)[i]).key),
    {
        let node = text(node_id);
        let ghost all = keys::views(ids@);
        let mut cands: Vec<Candidate> = Vec::new();
        let mut i: usize = 0;
        assert(all.take(0) =~= Seq::empty());
        assert(keys::views(cands@) =~= Seq::empty());
        while i < ids.len()
            invariant
                i <= ids@.len() == all.len(),
                all == keys::views(ids@),
                node@ == node_id@,
                keys::views(cands@) == self@.candidates(node_id@, all.take(i as int)),
                forall|i: int|
                    0 <= i < cands@.len() ==> self@.has_block((#[trigger] keys::views(cands@)[i]).key),
            decreases ids@.len() - i,
        {
            proof {
                assert(all.take(i + 1).drop_last() =~= all.take(i as int));
                assert(all[i as int] == ids@[i as int]@);
            }
            if let Some(b) = self.resolve(&ids[i]) {
                if let Some(pool) = self.pool_by(&b) {
                    let n: u32 = pool.hits_on(&b.flat, &node);
                    let ordered = pool.marks.contains(
                        &Mark { flat: b.flat.dup(), node_id: text(node_id) },
                    );
                    let there = match pool.by_flat.get(&b.flat) {
                        Some(e) => has_tier_on(&e.meta.locations, Tier::L0, node_id),
                        None => false,
                    };
                    if n >= FOLLOW_HIT_THRESHOLD && !ordered && !there && !is_nominated(
                        &cands,
                        &b,
                    ) {
                        let ghost before = keys::views(cands@);
                        let c = Candidate { key: b, count: n };
                        let ghost v = c@;
                        cands.push(c);
                        assert(keys::views(cands@) =~= before.push(v));
                        assert forall|j: int| 0 <= j < cands@.len() implies self@.has_block(
                            (#[trigger] keys::views(cands@)[j]).key,
                        ) by {
                            if j < before.len() {
                                assert(keys::views(cands@)[j] == before[j]);
                            }
                        }
                    }
                }
            }
            i += 1;
        }
        assert(all.take(i as int) =~= all);
        cands
    }

    /// The pool of a block.
    pub(crate) fn pool_by(&self, b: &BlockKey) -> (r: Option<&Pool>)
        ensures
            match r {
                Some(p) => self@.pool_at(b@.space(), b@.pool_kind) == Some(p@),
                None => self@.pool_at(b@.space(), b@.pool_kind) is None,
            },
    {
        match self.ns(b.model_id.as_str(), b.revision.as_str()) {
            Some(ns) => ns.pool(b.pool_kind),
            None => None,
        }
    }

    /// Plans after traffic: blocks of the report that are hot on the node but
    /// neither there nor ordered there are placed, with their ancestors.
    pub(crate) fn follow_traffic_plans(&mut self, node_id: &str, ids: &[KvBlockId]) -> (plans: Vec<
        (String, Vec<KvBlockId>),
    >)
        requires
            old(self).wf(),
        ensures
            ({
                let steps = old(self)@.follow_steps(node_id@, keys::views(ids@));
                &&& final(self)@ == old(self)@.steps_marked(node_id@, steps)
                &&& plan_for_node(plans@, node_id@, steps)
            }),
            final(self).wf(),
    {
        if node_id.is_empty() {
            return Vec::new();
        }
        let cands = self.nominate(node_id, ids);
        let ghost chosen = keys::views(cands@);
        let sorted = sort_ranked(cands);
        proof {
            lemma_ranked_known(self@, chosen);
        }
        let ghost all = keys::views(sorted@);
        let limit: usize = if sorted.len() <= FOLLOW_EVAL_LIMIT {
            sorted.len()
        } else {
            FOLLOW_EVAL_LIMIT
        };
        let mut steps: Vec<Step> = Vec::new();
        let mut i: usize = 0;
        assert(all.take(0) =~= Seq::empty());
        assert(keys::views(steps@) =~= Seq::empty());
        while i < limit
            invariant
                i <= limit <= sorted@.len() == all.len(),
                all == keys::views(sorted@),
                keys::views(steps@) == self@.steps(node_id@, all.take(i as int)),
                forall|j: int| 0 <= j < all.len() ==> self@.has_block((#[trigger] all[j]).key),
            decreases limit - i,
        {
            let c = &sorted[i];
            proof {
                assert(all.take(i + 1).drop_last() =~= all.take(i as int));
                assert(all[i as int] == c@);
            }
            if let Some(pool) = self.pool_by(&c.key) {
                if let Some(e) = pool.by_flat.get(&c.key.flat) {
                    push_chain_steps(pool, &c.key, node_id, &e.prefix_chain, &mut steps);
                }
            }
            i += 1;
        }
        assert(all.take(limit as int) =~= at_most(all, FOLLOW_EVAL_LIMIT as nat));
        let ghost plan = keys::views(steps@);
        let ghost start = self@;
        let mut out: Vec<KvBlockId> = Vec::new();
        let mut j: usize = 0;
        assert(plan.take(0) =~= Seq::empty());
        assert(start.steps_marked(node_id@, plan.take(0)) == start);
        assert(keys::views(out@) =~= plan.take(0).map_values(|s: StepView| s.id));
        proof {
            lemma_steps_known(start, node_id@, at_most(all, FOLLOW_EVAL_LIMIT as nat));
        }
        while j < steps.len()
            invariant
                j <= steps@.len() == plan.len(),
                plan == keys::views(steps@),
                self.wf(),
                self@ == start.steps_marked(node_id@, plan.take(j as int)),
                forall|b: BlockKeyView| #[trigger] self@.has_block(b) == start.has_block(b),
                forall|x: int| 0 <= x < plan.len() ==> start.has_block((#[trigger] plan[x]).key),
                keys::views(out@) == plan.take(j as int).map_values(|s: StepView| s.id),
            decreases steps@.len() - j,
        {
            let s = &steps[j];
            proof {
                assert(plan.take(j + 1).drop_last() =~= plan.take(j as int));
                assert(plan[j as int] == s@);
                assert(start.has_block(plan[j as int].key));
                assert(self@.has_block(s@.key));
            }
            let ghost before = self@;
            let key = NamespaceKey::new(s.key.model_id.as_str(), s.key.revision.as_str());
            if let Some(mut pool) = self.take_pool(&key, s.key.pool_kind) {
                let ghost p = pool@;
                pool.marks.insert(Mark { flat: s.key.flat.dup(), node_id: text(node_id) });
                assert(pool@ =~= PoolView { marks: p.marks.insert((s@.key.flat, node_id@)), ..p });
                assert(pool@.refs == p.refs && pool@.inactive == p.inactive);
                let ghost q = pool@;
                self.put_pool(&key, s.key.pool_kind, pool);
                assert(self@ == before.with_pool_at(key@, s@.key.pool_kind, q));
                assert forall|b: BlockKeyView| #[trigger] self@.has_block(b) == start.has_block(
                    b,
                ) by {
                    assert(before.has_block(b) == start.has_block(b));
                }
            }
            let ghost sofar = keys::views(out@);
            out.push(s.id.dup());
            assert(keys::views(out@) =~= sofar.push(s@.id));
            assert(plan.take(j + 1).map_values(|s: StepView| s.id) =~= sofar.push(s@.id));
            j += 1;
        }
        assert(plan.take(j as int) =~= plan);
        let mut plans: Vec<(String, Vec<KvBlockId>)> = Vec::new();
        if out.len() > 0 {
            plans.push((text(node_id), out));
        }
        plans
    }

    /// Counts hits of blocks on a node, passing strangers over, and plans what
    /// traffic calls for.
    pub fn report_hits(&mut self, node_id: &str, ids: &[KvBlockId]) -> (plans: Vec<
        (String, Vec<KvBlockId>),
    >)
        requires
            old(self).wf(),
        ensures
            ({
                let a = old(self)@.hits_counted(node_id@, keys::views(ids@));
                let steps = a.follow_steps(node_id@, keys::views(ids@));
                &&& final(self)@ == a.steps_marked(node_id@, steps)
                &&& plan_for_node(plans@, node_id@, steps)
            }),
            final(self).wf(),
    {
        let ghost all = keys::views(ids@);
        let ghost start = self@;
        let mut i: usize = 0;
        assert(all.take(0) =~= Seq::empty());
        while i < ids.len()
            invariant
                i <= ids@.len() == all.len(),
                all == keys::views(ids@),
                self.wf(),
                self@ == start.hits_counted(node_id@, all.take(i as int)),
            decreases ids@.len() - i,
        {
            proof {
                assert(all.take(i + 1).drop_last() =~= all.take(i as int));
                assert(all[i as int] == ids@[i as int]@);
            }
            if let Some(b) = self.resolve(&ids[i]) {
                let key = NamespaceKey::new(b.model_id.as_str(), b.revision.as_str());
                if let Some(mut pool) = self.take_pool(&key, b.pool_kind) {
                    pool.count_hit(&b.flat, node_id);
                    self.put_pool(&key, b.pool_kind, pool);
                }
            }
            i += 1;
        }
        assert(all.take(i as int) =~= all);
        self.follow_traffic_plans(node_id, ids)
    }

    /// All hits of a block.
    pub fn hit_count(&self, key: &NamespaceKey, pool_kind: i32, flat: &[u8]) -> (n: u64)
        ensures
            n == match self@.pool_at(key@, pool_kind) {
                Some(p) => p.hits_all(flat@),
                None => 0,
            },
    {
        match self.ns(key.model_id.as_str(), key.revision.as_str()) {
            Some(ns) => match ns.pool(pool_kind) {
                Some(p) => p.all_hits(&to_bytes(flat)),
                None => 0,
            },
            None => 0,
        }
    }

    /// The hits of a block on a node.
    pub fn hit_count_on(&self, key: &NamespaceKey, pool_kind: i32, flat: &[u8], node_id: &str) -> (n:
        u32)
        ensures
            n == match self@.pool_at(key@, pool_kind) {
                Some(p) => p.hits_on(flat@, node_id@),
                None => 0,
            },
    {
        match self.ns(key.model_id.as_str(), key.revision.as_str()) {
            Some(ns) => match ns.pool(pool_kind) {
                Some(p) => p.hits_on(&to_bytes(flat), &text(node_id)),
                None => 0,
            },
            None => 0,
        }
    }

    /// The hottest blocks that a node lacks, at most `k`.
    pub fn warmup_plan(&self, node_id: &str, k: usize) -> (ids: Vec<KvBlockId>)
        ensures
            keys::views(ids@) == self@.warmup(node_id@, k as nat),
    {
        let blocks = self.block_keys();
        let ghost all = keys::views(blocks@);
        let mut hot: Vec<Hot> = Vec::new();
        let mut i: usize = 0;
        assert(all.take(0) =~= Seq::empty());
        assert(keys::views(hot@) =~= Seq::empty());
        while i < blocks.len()
            invariant
                i <= blocks@.len() == all.len(),
                all == keys::views(blocks@),
                forall|i: int| 0 <= i < blocks@.len() ==> self@.has_block((#[trigger] all[i])),
                keys::views(hot@) == self@.hot_of(node_id@, all.take(i as int)),
            decreases blocks@.len() - i,
        {
            let b = &blocks[i];
            proof {
                assert(all.take(i + 1).drop_last() =~= all.take(i as int));
                assert(all[i as int] == b@);
            }
            if let Some(pool) = self.pool_by(b) {
                if let Some(e) = pool.by_flat.get(&b.flat) {
                    let n: u64 = pool.all_hits(&b.flat);
                    if n > 0 && !has_tier_on(&e.meta.locations, Tier::L0, node_id) {
                        let ghost before = keys::views(hot@);
                        let h = Hot {
                            count: n,
                            id: id_or_public(
                                &e.meta.id,
                                b.model_id.as_str(),
                                b.revision.as_str(),
                                b.pool_kind,
                                &b.flat,
                            ),
                        };
                        let ghost v = h@;
                        hot.push(h);
                        assert(keys::views(hot@) =~= before.push(v));
                    }
                }
            }
            i += 1;
        }
        assert(all.take(i as int) =~= all);
        let sorted = sort_ranked(hot);
        let ghost order = keys::views(sorted@).map_values(|h: HotView| h.id);
        let mut ids: Vec<KvBlockId> = Vec::new();
        let mut j: usize = 0;
        assert(keys::views(ids@) =~= order.take(0));
        while j < sorted.len() && j < k
            invariant
                j <= sorted@.len() == order.len(),
                j <= k,
                order == keys::views(sorted@).map_values(|h: HotView| h.id),
                keys::views(ids@) == order.take(j as int),
            decreases sorted@.len() - j,
        {
            let ghost before = keys::views(ids@);
            ids.push(sorted[j].id.dup());
            assert(keys::views(ids@) =~= before.push(order[j as int]));
            assert(order.take(j + 1) =~= before.push(order[j as int]));
            j += 1;
        }
        assert(order.take(j as int) =~= at_most(order, k as nat));
        ids
    }
}

/// Collects the blocks of a prefix that are there but neither on the node nor
/// ordered there.
fn collect_missing(
    p: &Pool,
    key: &NamespaceKey,
    pool_kind: i32,
    node_id: &String,
    prefix: &[Vec<u8>],
) -> (r: Vec<KvBlockId>)
    ensures
        keys::views(r@) == missing_on(p@, key@, pool_kind, node_id@, keys::views(prefix@)),
{
    let ghost all = keys::views(prefix@);
    let mut r: Vec<KvBlockId> = Vec::new();
    let mut i: usize = 0;
    assert(all.take(0) =~= Seq::empty());
    assert(keys::views(r@) =~= Seq::empty());
    while i < prefix.len()
        invariant
            i <= prefix@.len() == all.len(),
            all == keys::views(prefix@),
            keys::views(r@) == missing_on(p@, key@, pool_kind, node_id@, all.take(i as int)),
        decreases prefix@.len() - i,
    {
        let flat = &prefix[i];
        proof {
            assert(all.take(i + 1).drop_last() =~= all.take(i as int));
            assert(all[i as int] == flat@);
        }
        if let Some(e) = p.by_flat.get(flat) {
            if !has_tier_on(&e.meta.locations, Tier::L0, node_id.as_str()) && !p.marks.contains(
                &Mark { flat: flat.dup(), node_id: node_id.dup() },
            ) {
                let ghost before = keys::views(r@);
                let id = id_or_public(
                    &e.meta.id,
                    key.model_id.as_str(),
                    key.revision.as_str(),
                    pool_kind,
                    flat,
                );
                let ghost v = id@;
                r.push(id);
                assert(keys::views(r@) =~= before.push(v));
            }
        }
        i += 1;
    }
    assert(all.take(i as int) =~= all);
    r
}

proof fn lemma_ranked_known(a: AuthorityView, cands: Seq<CandidateView>)
    requires
        forall|i: int| 0 <= i < cands.len() ==> a.has_block((#[trigger] cands[i]).key),
    ensures
        forall|i: int|
            0 <= i < order::ranked::<Candidate>(cands).len() ==> a.has_block(
                (#[trigger] order::ranked::<Candidate>(cands)[i]).key,
            ),
{
    broadcast use vstd::seq_lib::group_to_multiset_ensures;

    let r = order::ranked::<Candidate>(cands);
    crate::base::order::ranked_keeps_values::<Candidate>(cands);
    assert forall|i: int| 0 <= i < r.len() implies a.has_block((#[trigger] r[i]).key) by {
        assert(r.contains(r[i]));
        assert(r.to_multiset().count(r[i]) > 0);
        assert(cands.to_multiset().count(r[i]) > 0);
        assert(cands.contains(r[i]));
        let j = choose|j: int| 0 <= j < cands.len() && cands[j] == r[i];
        assert(a.has_block(cands[j].key));
    }
}

proof fn lemma_chain_known(
    a: AuthorityView,
    p: PoolView,
    key: BlockKeyView,
    node_id: Seq<char>,
    chain: Seq<Seq<u8>>,
    steps: Seq<StepView>,
)
    requires
        a.pool_at(key.space(), key.pool_kind) == Some(p),
        forall|i: int| 0 <= i < steps.len() ==> a.has_block((#[trigger] steps[i]).key),
    ensures
        forall|i: int|
            0 <= i < chain_steps(p, key, node_id, chain, steps).len() ==> a.has_block(
                (#[trigger] chain_steps(p, key, node_id, chain, steps)[i]).key,
            ),
    decreases chain.len(),
{
    if chain.len() > 0 {
        lemma_chain_known(a, p, key, node_id, chain.drop_last(), steps);
        let s = chain_steps(p, key, node_id, chain.drop_last(), steps);
        let t = chain_steps(p, key, node_id, chain, steps);
        assert forall|i: int| 0 <= i < t.len() implies a.has_block((#[trigger] t[i]).key) by {
            if i < s.len() {
                assert(a.has_block(s[i].key));
                assert(t[i] == s[i]);
            } else {
                assert(t[i].key.space() == key.space());
            }
        }
    }
}

proof fn lemma_steps_known(a: AuthorityView, node_id: Seq<char>, cands: Seq<CandidateView>)
    requires
        forall|i: int| 0 <= i < cands.len() ==> a.has_block((#[trigger] cands[i]).key),
    ensures
        forall|i: int|
            0 <= i < a.steps(node_id, cands).len() ==> a.has_block(
                (#[trigger] a.steps(node_id, cands)[i]).key,
            ),
    decreases cands.len(),
{
    if cands.len() > 0 {
        let init = cands.drop_last();
        assert forall|i: int| 0 <= i < init.len() implies a.has_block((#[trigger] init[i]).key) by {
            assert(a.has_block(cands[i].key));
        }
        lemma_steps_known(a, node_id, init);
        let b = cands.last().key;
        assert(a.has_block(cands[cands.len() - 1].key));
        lemma_chain_known(
            a,
            a.pool_at(b.space(), b.pool_kind)->0,
            b,
            node_id,
            a.block(b).chain,
            a.steps(node_id, init),
        );
    }
}

proof fn lemma_beats_transitive(anchor: Seq<u8>, a: Seq<char>, b: Seq<char>, c: Seq<char>)
    requires
        beats(anchor, a, b),
        beats(anchor, b, c),
    ensures
        beats(anchor, a, c),
{
    if score(anchor, a) == score(anchor, b) && score(anchor, b) == score(anchor, c) {
        order::bytes_le_transitive(encode_utf8(a), encode_utf8(b), encode_utf8(c));
    }
}

/// A chain prefers one node.
pub proof fn home_is_unique(
    anchor: Seq<u8>,
    nodes: Set<Seq<char>>,
    a: Seq<char>,
    b: Seq<char>,
)
    requires
        is_home(anchor, nodes, a),
        is_home(anchor, nodes, b),
    ensures
        a == b,
{
    assert(nodes.contains(a) && nodes.contains(b));
    listing::text_le_antisymmetric(a, b);
}

/// A node that leaves moves only the chains that preferred it.
pub proof fn leaving_moves_only_its_chains(
    anchor: Seq<u8>,
    nodes: Set<Seq<char>>,
    home: Seq<char>,
    gone: Seq<char>,
)
    requires
        is_home(anchor, nodes, home),
        gone != home,
    ensures
        is_home(anchor, nodes.remove(gone), home),
{
    assert forall|n: Seq<char>| #[trigger] nodes.remove(gone).contains(n) implies beats(
        anchor,
        home,
        n,
    ) by {
        assert(nodes.contains(n));
    }
}

/// A node that comes takes chains over or leaves them where they are; none moves
/// between the others.
pub proof fn coming_moves_chains_only_to_itself(
    anchor: Seq<u8>,
    nodes: Set<Seq<char>>,
    home: Seq<char>,
    new: Seq<char>,
)
    requires
        is_home(anchor, nodes, home),
    ensures
        is_home(anchor, nodes.insert(new), home) || is_home(anchor, nodes.insert(new), new),
{
    let more = nodes.insert(new);
    order::bytes_le_total(encode_utf8(home), encode_utf8(new));
    order::bytes_le_total(encode_utf8(new), encode_utf8(new));
    if beats(anchor, home, new) {
        assert forall|n: Seq<char>| #[trigger] more.contains(n) implies beats(anchor, home, n) by {
            if n != new {
                assert(nodes.contains(n));
            }
        }
    } else {
        assert(beats(anchor, new, home));
        assert forall|n: Seq<char>| #[trigger] more.contains(n) implies beats(anchor, new, n) by {
            if n != new {
                assert(nodes.contains(n));
                lemma_beats_transitive(anchor, new, home, n);
            }
        }
    }
}

/// A chain prefers some node where there is one.
pub proof fn some_home(anchor: Seq<u8>, nodes: Set<Seq<char>>)
    requires
        nodes.finite(),
        nodes.len() > 0,
    ensures
        exists|home: Seq<char>| is_home(anchor, nodes, home),
    decreases nodes.len(),
{
    let new = nodes.choose();
    let rest = nodes.remove(new);
    assert(rest.insert(new) =~= nodes);
    if rest.len() == 0 {
        order::bytes_le_total(encode_utf8(new), encode_utf8(new));
        assert forall|n: Seq<char>| #[trigger] nodes.contains(n) implies beats(anchor, new, n) by {
            if n != new {
                assert(rest.contains(n));
                assert(rest.remove(n).len() == rest.len() - 1);
            }
        }
        assert(is_home(anchor, nodes, new));
    } else {
        some_home(anchor, rest);
        let home = choose|home: Seq<char>| is_home(anchor, rest, home);
        coming_moves_chains_only_to_itself(anchor, rest, home, new);
    }
}

/// One more hit on a node is one more in all.
proof fn lemma_one_more_in_all(m: Map<Seq<char>, u32>, nodes: Seq<Seq<char>>, n: Seq<char>)
    requires
        nodes.no_duplicates(),
        m[n] < u32::MAX,
        hits_sum(m, nodes) < u64::MAX,
    ensures
        hits_sum(m.insert(n, (m[n] + 1) as u32), nodes) == hits_sum(m, nodes) + if nodes.contains(
            n,
        ) {
            1int
        } else {
            0int
        },
    decreases nodes.len(),
{
    if nodes.len() > 0 {
        let init = nodes.drop_last();
        assert(hits_sum(m, init) <= hits_sum(m, nodes));
        lemma_one_more_in_all(m, init, n);
        assert(nodes[nodes.len() - 1] == nodes.last());
        if init.contains(n) {
            let i = choose|i: int| 0 <= i < init.len() && init[i] == n;
            assert(nodes[i] == n);
        }
        if nodes.contains(n) {
            let i = choose|i: int| 0 <= i < nodes.len() && nodes[i] == n;
            if i < init.len() {
                assert(init[i] == n);
            }
        }
    }
}

/// The hits of a block on all nodes add up: one more hit on a node that has some is one more
/// in all, as far as numbers reach.
pub proof fn hits_add_up(p: PoolView, flat: Seq<u8>, node_id: Seq<char>)
    requires
        p.hits.contains_key(flat),
        p.hits[flat].contains_key(node_id),
        p.hits[flat].dom().finite(),
        p.hits[flat][node_id] < u32::MAX,
        p.hits_all(flat) < u64::MAX,
    ensures
        p.hit(flat, node_id).hits_all(flat) == p.hits_all(flat) + 1,
        p.hit(flat, node_id).hits[flat][node_id] == p.hits[flat][node_id] + 1,
{
    let m = p.hits[flat];
    let nodes = listing::listing::<String>(m.dom());
    listing::listing_lists::<String>(m.dom());
    let more = m.insert(node_id, (m[node_id] + 1) as u32);
    assert(more.dom() =~= m.dom());
    assert(nodes.contains(node_id)) by {
        assert(nodes.to_set().contains(node_id));
    }
    lemma_one_more_in_all(m, nodes, node_id);
}

/// Chains that start with the same blocks prefer the same node: the block that stands for a
/// chain is its last, and beyond the cap how a chain goes on does not matter.
pub proof fn long_chains_keep_their_anchor(prefix: Seq<Seq<u8>>, more: Seq<Seq<u8>>)
    requires
        prefix.len() > 0,
    ensures
        prefix.len() <= ANCHOR_DEPTH_CAP ==> anchor_of(prefix) == Some(prefix[prefix.len() - 1]),
        prefix.len() >= ANCHOR_DEPTH_CAP ==> anchor_of(prefix + more) == anchor_of(prefix),
{
}

} // verus!
