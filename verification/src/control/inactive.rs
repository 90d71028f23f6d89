//! The index of blocks without references, from which room is made. Only leaves
//! of the lineage leave it, rarely used ones first, and among equals the one that
//! has been a leaf for longest. How often blocks are used is counted with ageing.

use vstd::prelude::*;

use crate::base::table::Table;
use crate::control::hash_chain::SequenceHash;

verus! {

/// A count at which it stays.
pub const MAX_COUNT: u8 = 15;

/// The number of requests from which on counts are halved: ten for each of the
/// 262144 blocks that a tracker is meant for.
pub const AGE_AFTER: u32 = 2_621_440;

/// How often blocks were asked for, per lineage. Counts stop at their maximum, and
/// age: each time that enough requests came, all are halved, and so is the number of
/// requests. A block that is no longer asked for grows cold.
pub struct FrequencyTracker {
    counts: Table<SequenceHash, u8>,
    asked: u32,
}

/// What a tracker stands for: its counts, and the requests that they stand for.
#[verifier::ext_equal]
pub struct FrequencyView {
    pub counts: Map<SequenceHash, u8>,
    pub asked: u32,
}

impl View for FrequencyTracker {
    type V = FrequencyView;

    closed spec fn view(&self) -> FrequencyView {
        FrequencyView { counts: self.counts@, asked: self.asked }
    }
}

impl FrequencyView {
    /// No request yet.
    pub open spec fn none() -> FrequencyView {
        FrequencyView { counts: Map::empty(), asked: 0 }
    }
}

/// How often a block was asked for.
pub open spec fn count_of(f: FrequencyView, seq: SequenceHash) -> u8 {
    if f.counts.contains_key(seq) {
        f.counts[seq]
    } else {
        0
    }
}

/// Counts halved; what is left with none is forgotten.
pub open spec fn halved(counts: Map<SequenceHash, u8>) -> Map<SequenceHash, u8> {
    Map::new(
        |s: SequenceHash| counts.contains_key(s) && counts[s] >= 2,
        |s: SequenceHash| counts[s] / 2,
    )
}

/// The counts after one more request.
pub open spec fn touched(f: FrequencyView, seq: SequenceHash) -> FrequencyView {
    let counts = f.counts.insert(
        seq,
        if count_of(f, seq) < MAX_COUNT {
            (count_of(f, seq) + 1) as u8
        } else {
            count_of(f, seq)
        },
    );
    if f.asked + 1 >= AGE_AFTER {
        FrequencyView { counts: halved(counts), asked: AGE_AFTER / 2 }
    } else {
        FrequencyView { counts, asked: (f.asked + 1) as u32 }
    }
}

/// The level of a count: cold below three, hot from fifteen on.
pub open spec fn level_of(count: u8) -> u8 {
    if count < 3 {
        0
    } else if count < 8 {
        1
    } else if count < 15 {
        2
    } else {
        3
    }
}

impl FrequencyTracker {
    /// No request yet.
    pub fn new() -> (t: Self)
        ensures
            t@ == FrequencyView::none(),
    {
        FrequencyTracker { counts: Table::new(), asked: 0 }
    }

    /// How often a block was asked for.
    pub fn count(&self, seq: &SequenceHash) -> (n: u8)
        ensures
            n == count_of(self@, *seq),
    {
        match self.counts.get(seq) {
            Some(n) => *n,
            None => 0,
        }
    }

    /// Counts one request.
    pub fn touch(&mut self, seq: &SequenceHash)
        ensures
            final(self)@ == touched(old(self)@, *seq),
    {
        let n: u8 = self.count(seq);
        self.counts.insert(
            *seq,
            if n < MAX_COUNT {
                n + 1
            } else {
                n
            },
        );
        if self.asked >= AGE_AFTER - 1 {
            self.halve();
            self.asked = AGE_AFTER / 2;
        } else {
            self.asked = self.asked + 1;
        }
    }

    /// Halves all counts.
    fn halve(&mut self)
        ensures
            final(self)@ == (FrequencyView { counts: halved(old(self)@.counts), ..old(self)@ }),
    {
        let mut kept: Table<SequenceHash, u8> = Table::new();
        let n: usize = self.counts.len();
        let ghost all = self.counts.order();
        let ghost was = self.counts@;
        let mut i: usize = 0;
        while i < n
            invariant
                i <= n == all.len(),
                all == self.counts.order(),
                all.no_duplicates(),
                was == self.counts@,
                self@ == old(self)@,
                forall|s: SequenceHash| #[trigger]
                    kept@.contains_key(s) <==> all.take(i as int).contains(s) && was[s] >= 2,
                forall|s: SequenceHash| #[trigger]
                    kept@.contains_key(s) ==> kept@[s] == was[s] / 2,
            decreases n - i,
        {
            let (seq, count) = self.counts.at(i);
            assert(all.take(i + 1) =~= all.take(i as int).push(all[i as int]));
            assert forall|s: SequenceHash| #[trigger] all.take(i + 1).contains(s) == (all.take(
                i as int,
            ).contains(s) || s == *seq) by {
                if all.take(i as int).contains(s) {
                    let j = all.take(i as int).index_of(s);
                    assert(all.take(i + 1)[j] == s);
                }
                if s == *seq {
                    assert(all.take(i + 1)[i as int] == s);
                }
            }
            let half: u8 = *count / 2;
            if half > 0 {
                kept.insert(*seq, half);
            }
            i += 1;
        }
        assert(all.take(i as int) =~= all);
        assert(kept@ =~= halved(was)) by {
            assert forall|s: SequenceHash| all.contains(s) == was.contains_key(s) by {
                assert(all.to_set().contains(s) == was.dom().contains(s));
            }
        }
        self.counts = kept;
    }

    fn level(&self, seq: &SequenceHash) -> (level: u8)
        ensures
            level == level_of(count_of(self@, *seq)),
    {
        let n: u8 = self.count(seq);
        if n < 3 {
            0
        } else if n < 8 {
            1
        } else if n < 15 {
            2
        } else {
            3
        }
    }
}

/// A block in the index.
#[derive(Debug, Clone, Copy, PartialEq, Eq, Structural)]
pub struct Node {
    pub seq: SequenceHash,
    pub block_id: u64,
}

/// A block that may leave, with the level that it had when it became a leaf.
#[derive(Debug, Clone, Copy, PartialEq, Eq, Structural)]
pub struct Leaf {
    pub seq: SequenceHash,
    pub level: u8,
}

/// What an index stands for: its blocks in the order in which they came, and its
/// leaves in the order in which they became leaves.
#[verifier::ext_equal]
pub struct InactiveView {
    pub nodes: Seq<Node>,
    pub leaves: Seq<Leaf>,
}

/// Some block is the child of this one.
pub open spec fn has_child(nodes: Seq<Node>, seq: SequenceHash) -> bool {
    exists|i: int| 0 <= i < nodes.len() && (#[trigger] nodes[i]).seq.follows(seq)
}

/// The index holds the block.
pub open spec fn holds(nodes: Seq<Node>, seq: SequenceHash) -> bool {
    exists|i: int| 0 <= i < nodes.len() && (#[trigger] nodes[i]).seq == seq
}

/// The leaf list names the block.
pub open spec fn listed(leaves: Seq<Leaf>, seq: SequenceHash) -> bool {
    exists|i: int| 0 <= i < leaves.len() && (#[trigger] leaves[i]).seq == seq
}

/// New leaves for blocks, in their order.
pub open spec fn leaves_for(nodes: Seq<Node>, counts: FrequencyView) -> Seq<Leaf> {
    nodes.map_values(|n: Node| Leaf { seq: n.seq, level: level_of(count_of(counts, n.seq)) })
}

/// The leaf that leaves first: the oldest of the lowest level.
pub open spec fn is_victim(leaves: Seq<Leaf>, i: int) -> bool {
    &&& 0 <= i < leaves.len()
    &&& forall|j: int| 0 <= j < leaves.len() ==> leaves[i].level <= (#[trigger] leaves[j]).level
    &&& forall|j: int| 0 <= j < i ==> leaves[i].level < (#[trigger] leaves[j]).level
}

impl InactiveView {
    /// No block.
    pub open spec fn empty() -> InactiveView {
        InactiveView { nodes: Seq::empty(), leaves: Seq::empty() }
    }

    /// No block occurs twice, and the leaves are exactly the blocks without a
    /// child in the index.
    pub open spec fn wf(self) -> bool {
        &&& forall|i: int, j: int|
            0 <= i < self.nodes.len() && 0 <= j < self.nodes.len() && i != j ==> (
            #[trigger] self.nodes[i]).seq != (#[trigger] self.nodes[j]).seq
        &&& forall|i: int, j: int|
            0 <= i < self.leaves.len() && 0 <= j < self.leaves.len() && i != j ==> (
            #[trigger] self.leaves[i]).seq != (#[trigger] self.leaves[j]).seq
        &&& forall|seq: SequenceHash| #[trigger]
            listed(self.leaves, seq) == (holds(self.nodes, seq) && !has_child(self.nodes, seq))
    }

    /// The block joins; its parent is a leaf no longer, and it is one unless a
    /// child of it is there. A block that is there already changes nothing.
    pub open spec fn inserted(
        self,
        seq: SequenceHash,
        block_id: u64,
        counts: FrequencyView,
    ) -> InactiveView {
        if holds(self.nodes, seq) {
            self
        } else {
            let kept = self.leaves.filter(|l: Leaf| !seq.follows(l.seq));
            InactiveView {
                nodes: self.nodes.push(Node { seq, block_id }),
                leaves: if has_child(self.nodes, seq) {
                    kept
                } else {
                    kept.push(Leaf { seq, level: level_of(count_of(counts, seq)) })
                },
            }
        }
    }

    /// The block leaves; a parent that has no other child becomes a leaf.
    pub open spec fn removed(self, seq: SequenceHash, counts: FrequencyView) -> InactiveView {
        if !holds(self.nodes, seq) {
            self
        } else {
            let nodes = self.nodes.filter(|n: Node| n.seq != seq);
            InactiveView {
                nodes,
                leaves: self.leaves.filter(|l: Leaf| l.seq != seq) + leaves_for(
                    nodes.filter(|n: Node| seq.follows(n.seq) && !has_child(nodes, n.seq)),
                    counts,
                ),
            }
        }
    }

    /// The block that leaves next.
    pub open spec fn victim(self) -> Option<SequenceHash> {
        if self.leaves.len() == 0 {
            None
        } else {
            Some(self.leaves[choose|i: int| is_victim(self.leaves, i)].seq)
        }
    }

    /// The block id of a block that is there.
    pub open spec fn id_of(self, seq: SequenceHash) -> u64 {
        self.nodes[choose|i: int|
            0 <= i < self.nodes.len() && (#[trigger] self.nodes[i]).seq == seq].block_id
    }

    /// Up to `n` blocks leave, one after another.
    pub open spec fn allocated(self, n: nat, counts: FrequencyView) -> (
        InactiveView,
        Seq<Node>,
    )
        decreases n,
    {
        if n == 0 {
            (self, Seq::empty())
        } else {
            match self.victim() {
                None => (self, Seq::empty()),
                Some(seq) => {
                    let node = Node { seq, block_id: self.id_of(seq) };
                    let (rest, more) = self.removed(seq, counts).allocated((n - 1) as nat, counts);
                    (rest, seq![node] + more)
                },
            }
        }
    }
}

proof fn lemma_node_filter(nodes: Seq<Node>, seq: SequenceHash)
    requires
        forall|i: int, j: int|
            0 <= i < nodes.len() && 0 <= j < nodes.len() && i != j ==> (#[trigger] nodes[i]).seq
                != (#[trigger] nodes[j]).seq,
    ensures
        ({
            let kept = nodes.filter(|n: Node| n.seq != seq);
            &&& forall|i: int, j: int|
                0 <= i < kept.len() && 0 <= j < kept.len() && i != j ==> (#[trigger] kept[i]).seq
                    != (#[trigger] kept[j]).seq
            &&& forall|s: SequenceHash| #[trigger]
                holds(kept, s) == (holds(nodes, s) && s != seq)
            &&& holds(nodes, seq) ==> kept.len() == nodes.len() - 1
        }),
    decreases nodes.len(),
{
    let p = |n: Node| n.seq != seq;
    let kept = nodes.filter(p);
    crate::base::queue::lemma_filter(nodes, p);
    assert(nodes.no_duplicates()) by {
        assert forall|i: int, j: int|
            0 <= i < nodes.len() && 0 <= j < nodes.len() && i != j implies nodes[i] != nodes[j] by {
            assert(nodes[i].seq != nodes[j].seq);
        }
    }
    assert forall|i: int, j: int| 0 <= i < kept.len() && 0 <= j < kept.len() && i != j implies (
    #[trigger] kept[i]).seq != (#[trigger] kept[j]).seq by {
        assert(kept.contains(kept[i]));
        assert(kept.contains(kept[j]));
        let a = choose|a: int| 0 <= a < nodes.len() && nodes[a] == kept[i];
        let b = choose|b: int| 0 <= b < nodes.len() && nodes[b] == kept[j];
        assert(kept[i] != kept[j]);
        assert(nodes[a].seq != nodes[b].seq);
    }
    assert forall|s: SequenceHash| #[trigger] holds(kept, s) == (holds(nodes, s) && s != seq) by {
        if holds(kept, s) {
            let i = choose|i: int| 0 <= i < kept.len() && (#[trigger] kept[i]).seq == s;
            assert(kept.contains(kept[i]));
            let a = choose|a: int| 0 <= a < nodes.len() && nodes[a] == kept[i];
            assert(nodes[a].seq == s);
        }
        if holds(nodes, s) && s != seq {
            let i = choose|i: int| 0 <= i < nodes.len() && (#[trigger] nodes[i]).seq == s;
            assert(nodes.contains(nodes[i]));
            assert(kept.contains(nodes[i]));
            let a = choose|a: int| 0 <= a < kept.len() && kept[a] == nodes[i];
            assert(kept[a].seq == s);
        }
    }
    if holds(nodes, seq) {
        let i = choose|i: int| 0 <= i < nodes.len() && (#[trigger] nodes[i]).seq == seq;
        let q = |n: Node| n != nodes[i];
        assert forall|k: int| 0 <= k < nodes.len() implies p(#[trigger] nodes[k]) == q(
            nodes[k],
        ) by {
            if k != i {
                assert(nodes[k].seq != nodes[i].seq);
            }
        }
        crate::base::queue::lemma_filter_agree(nodes, p, q);
        crate::base::queue::lemma_without_unique(nodes, i);
        assert(nodes.filter(q) == crate::base::queue::without(nodes, nodes[i])) by {
            crate::base::queue::lemma_filter_agree(nodes, q, |y: Node| y != nodes[i]);
        }
    }
}

proof fn lemma_leaf_filter(leaves: Seq<Leaf>, p: spec_fn(Leaf) -> bool)
    requires
        forall|i: int, j: int|
            0 <= i < leaves.len() && 0 <= j < leaves.len() && i != j ==> (#[trigger] leaves[i]).seq
                != (#[trigger] leaves[j]).seq,
    ensures
        forall|i: int, j: int|
            0 <= i < leaves.filter(p).len() && 0 <= j < leaves.filter(p).len() && i != j ==> (
            #[trigger] leaves.filter(p)[i]).seq != (#[trigger] leaves.filter(p)[j]).seq,
        forall|s: SequenceHash| #[trigger]
            listed(leaves.filter(p), s) ==> exists|i: int|
                0 <= i < leaves.len() && (#[trigger] leaves[i]).seq == s && p(leaves[i]),
        forall|i: int|
            0 <= i < leaves.len() && p(#[trigger] leaves[i]) ==> listed(
                leaves.filter(p),
                leaves[i].seq,
            ),
{
    let kept = leaves.filter(p);
    crate::base::queue::lemma_filter(leaves, p);
    assert(leaves.no_duplicates()) by {
        assert forall|i: int, j: int|
            0 <= i < leaves.len() && 0 <= j < leaves.len() && i != j implies leaves[i]
            != leaves[j] by {
            assert(leaves[i].seq != leaves[j].seq);
        }
    }
    assert forall|i: int, j: int| 0 <= i < kept.len() && 0 <= j < kept.len() && i != j implies (
    #[trigger] kept[i]).seq != (#[trigger] kept[j]).seq by {
        assert(kept.contains(kept[i]));
        assert(kept.contains(kept[j]));
        let a = choose|a: int| 0 <= a < leaves.len() && leaves[a] == kept[i];
        let b = choose|b: int| 0 <= b < leaves.len() && leaves[b] == kept[j];
        assert(kept[i] != kept[j]);
        assert(leaves[a].seq != leaves[b].seq);
    }
    assert forall|s: SequenceHash| #[trigger] listed(kept, s) implies exists|i: int|
        0 <= i < leaves.len() && (#[trigger] leaves[i]).seq == s && p(leaves[i]) by {
        let i = choose|i: int| 0 <= i < kept.len() && (#[trigger] kept[i]).seq == s;
        assert(kept.contains(kept[i]));
        let a = choose|a: int| 0 <= a < leaves.len() && leaves[a] == kept[i];
        assert(leaves[a].seq == s && p(leaves[a]));
    }
    assert forall|i: int| 0 <= i < leaves.len() && p(#[trigger] leaves[i]) implies listed(
        kept,
        leaves[i].seq,
    ) by {
        assert(leaves.contains(leaves[i]));
        assert(kept.contains(leaves[i]));
        let a = choose|a: int| 0 <= a < kept.len() && kept[a] == leaves[i];
        assert(kept[a].seq == leaves[i].seq);
    }
}

/// Joining keeps the index well-formed.
pub proof fn insert_keeps_wf(
    v: InactiveView,
    seq: SequenceHash,
    block_id: u64,
    counts: FrequencyView,
)
    requires
        v.wf(),
    ensures
        v.inserted(seq, block_id, counts).wf(),
        holds(v.inserted(seq, block_id, counts).nodes, seq),
{
    if !holds(v.nodes, seq) {
        let w = v.inserted(seq, block_id, counts);
        let p = |l: Leaf| !seq.follows(l.seq);
        let kept = v.leaves.filter(p);
        lemma_leaf_filter(v.leaves, p);
        assert(w.nodes[v.nodes.len() as int].seq == seq);
        assert forall|i: int, j: int|
            0 <= i < w.nodes.len() && 0 <= j < w.nodes.len() && i != j implies (
        #[trigger] w.nodes[i]).seq != (#[trigger] w.nodes[j]).seq by {
            if i < v.nodes.len() && j < v.nodes.len() {
                assert(v.nodes[i].seq != v.nodes[j].seq);
            }
        }
        assert(!listed(kept, seq)) by {
            if listed(kept, seq) {
                let i = choose|i: int|
                    0 <= i < v.leaves.len() && (#[trigger] v.leaves[i]).seq == seq && p(
                        v.leaves[i],
                    );
                assert(listed(v.leaves, seq));
            }
        }
        assert forall|i: int, j: int|
            0 <= i < w.leaves.len() && 0 <= j < w.leaves.len() && i != j implies (
        #[trigger] w.leaves[i]).seq != (#[trigger] w.leaves[j]).seq by {
            if i < kept.len() && j < kept.len() {
                assert(kept[i].seq != kept[j].seq);
            } else if i < kept.len() {
                assert(kept[i].seq != seq);
            } else if j < kept.len() {
                assert(kept[j].seq != seq);
            }
        }
        assert forall|s: SequenceHash| #[trigger] holds(w.nodes, s) == (holds(v.nodes, s) || s
            == seq) by {
            if holds(v.nodes, s) {
                let i = choose|i: int| 0 <= i < v.nodes.len() && (#[trigger] v.nodes[i]).seq == s;
                assert(w.nodes[i].seq == s);
            }
            if holds(w.nodes, s) && s != seq {
                let i = choose|i: int| 0 <= i < w.nodes.len() && (#[trigger] w.nodes[i]).seq == s;
                assert(v.nodes[i].seq == s);
            }
        }
        assert forall|s: SequenceHash| #[trigger] has_child(w.nodes, s) == (has_child(v.nodes, s)
            || seq.follows(s)) by {
            if has_child(v.nodes, s) {
                let i = choose|i: int|
                    0 <= i < v.nodes.len() && (#[trigger] v.nodes[i]).seq.follows(s);
                assert(w.nodes[i].seq.follows(s));
            }
            if seq.follows(s) {
                assert(w.nodes[v.nodes.len() as int].seq.follows(s));
            }
            if has_child(w.nodes, s) && !seq.follows(s) {
                let i = choose|i: int|
                    0 <= i < w.nodes.len() && (#[trigger] w.nodes[i]).seq.follows(s);
                assert(v.nodes[i].seq.follows(s));
            }
        }
        assert forall|s: SequenceHash| #[trigger]
            listed(w.leaves, s) == (holds(w.nodes, s) && !has_child(w.nodes, s)) by {
            if s == seq {
                if !has_child(v.nodes, seq) {
                    assert(w.leaves[kept.len() as int].seq == seq);
                }
                if listed(w.leaves, s) {
                    let i = choose|i: int|
                        0 <= i < w.leaves.len() && (#[trigger] w.leaves[i]).seq == s;
                    if i < kept.len() {
                        assert(kept[i].seq == seq);
                    }
                }
            } else {
                assert(listed(w.leaves, s) == listed(kept, s)) by {
                    if listed(kept, s) {
                        let i = choose|i: int|
                            0 <= i < kept.len() && (#[trigger] kept[i]).seq == s;
                        assert(w.leaves[i].seq == s);
                    }
                    if listed(w.leaves, s) {
                        let i = choose|i: int|
                            0 <= i < w.leaves.len() && (#[trigger] w.leaves[i]).seq == s;
                        assert(kept[i].seq == s);
                    }
                }
                if listed(kept, s) {
                    let i = choose|i: int|
                        0 <= i < v.leaves.len() && (#[trigger] v.leaves[i]).seq == s && p(
                            v.leaves[i],
                        );
                    assert(listed(v.leaves, s));
                }
                if holds(w.nodes, s) && !has_child(w.nodes, s) {
                    assert(listed(v.leaves, s));
                    let i = choose|i: int|
                        0 <= i < v.leaves.len() && (#[trigger] v.leaves[i]).seq == s;
                    assert(p(v.leaves[i]));
                }
            }
        }
    }
}

/// Leaving keeps the index well-formed, and takes exactly one block out.
pub proof fn remove_keeps_wf(v: InactiveView, seq: SequenceHash, counts: FrequencyView)
    requires
        v.wf(),
    ensures
        v.removed(seq, counts).wf(),
        !holds(v.removed(seq, counts).nodes, seq),
        holds(v.nodes, seq) ==> v.removed(seq, counts).nodes.len() == v.nodes.len() - 1,
        forall|s: SequenceHash| #[trigger]
            holds(v.removed(seq, counts).nodes, s) ==> holds(v.nodes, s),
{
    if holds(v.nodes, seq) {
        let w = v.removed(seq, counts);
        let p = |l: Leaf| l.seq != seq;
        let kept = v.leaves.filter(p);
        lemma_leaf_filter(v.leaves, p);
        lemma_node_filter(v.nodes, seq);
        let nodes = w.nodes;
        let q = |n: Node| seq.follows(n.seq) && !has_child(nodes, n.seq);
        let freed = nodes.filter(q);
        let fresh = leaves_for(freed, counts);
        crate::base::queue::lemma_filter(nodes, q);
        assert(nodes.no_duplicates()) by {
            assert forall|i: int, j: int|
                0 <= i < nodes.len() && 0 <= j < nodes.len() && i != j implies nodes[i]
                != nodes[j] by {
                assert(nodes[i].seq != nodes[j].seq);
            }
        }
        assert forall|s: SequenceHash| has_child(nodes, s) implies #[trigger] has_child(
            v.nodes,
            s,
        ) by {
            let i = choose|i: int| 0 <= i < nodes.len() && (#[trigger] nodes[i]).seq.follows(s);
            assert(holds(nodes, nodes[i].seq));
            let j = choose|j: int|
                0 <= j < v.nodes.len() && (#[trigger] v.nodes[j]).seq == nodes[i].seq;
            assert(v.nodes[j].seq.follows(s));
        }
        assert forall|s: SequenceHash| #[trigger] has_child(v.nodes, s) && !seq.follows(s)
            implies has_child(nodes, s) by {
            let i = choose|i: int| 0 <= i < v.nodes.len() && (#[trigger] v.nodes[i]).seq.follows(s);
            assert(v.nodes[i].seq != seq);
            assert(holds(v.nodes, v.nodes[i].seq));
            assert(holds(nodes, v.nodes[i].seq));
            let j = choose|j: int|
                0 <= j < nodes.len() && (#[trigger] nodes[j]).seq == v.nodes[i].seq;
            assert(nodes[j].seq.follows(s));
        }
        // A freed parent had a child before, so it was no leaf.
        assert forall|i: int| 0 <= i < freed.len() implies !listed(
            v.leaves,
            (#[trigger] freed[i]).seq,
        ) && holds(nodes, freed[i].seq) && seq.follows(freed[i].seq) && !has_child(
            nodes,
            freed[i].seq,
        ) by {
            assert(freed.contains(freed[i]));
            assert(nodes.contains(freed[i]));
            let a = choose|a: int| 0 <= a < nodes.len() && nodes[a] == freed[i];
            assert(nodes[a].seq == freed[i].seq);
            let j = choose|j: int| 0 <= j < v.nodes.len() && (#[trigger] v.nodes[j]).seq == seq;
            assert(v.nodes[j].seq.follows(freed[i].seq));
            assert(has_child(v.nodes, freed[i].seq));
        }
        assert forall|i: int, j: int|
            0 <= i < w.leaves.len() && 0 <= j < w.leaves.len() && i != j implies (
        #[trigger] w.leaves[i]).seq != (#[trigger] w.leaves[j]).seq by {
            let n = kept.len() as int;
            if i < n && j < n {
                assert(kept[i].seq != kept[j].seq);
            } else if i >= n && j >= n {
                assert(freed[i - n] != freed[j - n]);
                assert(nodes.contains(freed[i - n]) && nodes.contains(freed[j - n])) by {
                    assert(freed.contains(freed[i - n]));
                    assert(freed.contains(freed[j - n]));
                }
                let a = choose|a: int| 0 <= a < nodes.len() && nodes[a] == freed[i - n];
                let b = choose|b: int| 0 <= b < nodes.len() && nodes[b] == freed[j - n];
                assert(nodes[a].seq != nodes[b].seq);
            } else {
                let x = if i < n { i } else { j };
                let y = if i < n { j - n } else { i - n };
                assert(listed(kept, kept[x].seq));
                assert(listed(v.leaves, kept[x].seq));
                assert(!listed(v.leaves, freed[y].seq));
            }
        }
        assert forall|s: SequenceHash| #[trigger]
            listed(w.leaves, s) == (holds(nodes, s) && !has_child(nodes, s)) by {
            let n = kept.len() as int;
            if listed(w.leaves, s) {
                let i = choose|i: int| 0 <= i < w.leaves.len() && (#[trigger] w.leaves[i]).seq == s;
                if i < n {
                    assert(kept[i].seq == s);
                    assert(listed(kept, s));
                    let a = choose|a: int|
                        0 <= a < v.leaves.len() && (#[trigger] v.leaves[a]).seq == s && p(
                            v.leaves[a],
                        );
                    assert(listed(v.leaves, s));
                } else {
                    assert(freed[i - n].seq == s);
                }
            }
            if holds(nodes, s) && !has_child(nodes, s) {
                if has_child(v.nodes, s) {
                    assert(seq.follows(s));
                    let a = choose|a: int| 0 <= a < nodes.len() && (#[trigger] nodes[a]).seq == s;
                    assert(nodes.contains(nodes[a]));
                    assert(freed.contains(nodes[a]));
                    let b = choose|b: int| 0 <= b < freed.len() && freed[b] == nodes[a];
                    assert(w.leaves[n + b].seq == s);
                } else {
                    assert(listed(v.leaves, s));
                    let a = choose|a: int|
                        0 <= a < v.leaves.len() && (#[trigger] v.leaves[a]).seq == s;
                    assert(p(v.leaves[a]));
                    assert(listed(kept, s));
                    let b = choose|b: int| 0 <= b < kept.len() && (#[trigger] kept[b]).seq == s;
                    assert(w.leaves[b].seq == s);
                }
            }
        }
    }
}

proof fn lemma_victim_exists(leaves: Seq<Leaf>)
    requires
        leaves.len() > 0,
    ensures
        exists|i: int| is_victim(leaves, i),
    decreases leaves.len(),
{
    if leaves.len() == 1 {
        assert(is_victim(leaves, 0));
    } else {
        let init = leaves.drop_last();
        lemma_victim_exists(init);
        let i = choose|i: int| is_victim(init, i);
        let last = leaves.len() - 1;
        if leaves[last].level < leaves[i].level {
            assert forall|j: int| 0 <= j < leaves.len() implies leaves[last].level <= (
            #[trigger] leaves[j]).level by {
                if j < last {
                    assert(init[j].level >= init[i].level);
                }
            }
            assert forall|j: int| 0 <= j < last implies leaves[last].level < (
            #[trigger] leaves[j]).level by {
                assert(init[j].level >= init[i].level);
            }
            assert(is_victim(leaves, last));
        } else {
            assert forall|j: int| 0 <= j < leaves.len() implies leaves[i].level <= (
            #[trigger] leaves[j]).level by {
                if j < last {
                    assert(init[j].level >= init[i].level);
                }
            }
            assert forall|j: int| 0 <= j < i implies leaves[i].level < (
            #[trigger] leaves[j]).level by {
                assert(init[j].level > init[i].level);
            }
            assert(is_victim(leaves, i));
        }
    }
}

/// There is one victim.
proof fn lemma_victim(v: InactiveView, i: int)
    requires
        is_victim(v.leaves, i),
    ensures
        v.victim() == Some(v.leaves[i].seq),
{
    let j = choose|j: int| is_victim(v.leaves, j);
    assert(is_victim(v.leaves, j));
    if i < j {
        assert(v.leaves[j].level < v.leaves[i].level);
    } else if j < i {
        assert(v.leaves[i].level < v.leaves[j].level);
    }
}

/// Who leaves next is in the index, has no child in it, and is of the lowest
/// level among those without one.
pub proof fn victim_is_a_cold_leaf(v: InactiveView)
    requires
        v.wf(),
        v.victim() is Some,
    ensures
        holds(v.nodes, v.victim()->0),
        !has_child(v.nodes, v.victim()->0),
        exists|i: int|
            0 <= i < v.leaves.len() && v.leaves[i].seq == v.victim()->0 && forall|j: int|
                0 <= j < v.leaves.len() ==> v.leaves[i].level <= (#[trigger] v.leaves[j]).level,
{
    lemma_victim_exists(v.leaves);
    let i = choose|i: int| is_victim(v.leaves, i);
    lemma_victim(v, i);
    assert(listed(v.leaves, v.leaves[i].seq));
}

/// A block of the highest position has no child, so a non-empty index has a leaf.
proof fn lemma_some_leaf(v: InactiveView)
    requires
        v.wf(),
        v.nodes.len() > 0,
    ensures
        v.leaves.len() > 0,
{
    let top = highest(v.nodes);
    lemma_highest(v.nodes);
    let s = v.nodes[top].seq;
    assert(holds(v.nodes, s));
    assert(!has_child(v.nodes, s)) by {
        if has_child(v.nodes, s) {
            let i = choose|i: int| 0 <= i < v.nodes.len() && (#[trigger] v.nodes[i]).seq.follows(s);
            assert(v.nodes[i].seq.position == s.position + 1);
        }
    }
    assert(listed(v.leaves, s));
}

spec fn highest(nodes: Seq<Node>) -> int
    decreases nodes.len(),
{
    if nodes.len() <= 1 {
        0
    } else {
        let h = highest(nodes.drop_last());
        if nodes.last().seq.position > nodes[h].seq.position {
            nodes.len() - 1
        } else {
            h
        }
    }
}

proof fn lemma_highest(nodes: Seq<Node>)
    requires
        nodes.len() > 0,
    ensures
        0 <= highest(nodes) < nodes.len(),
        forall|i: int|
            0 <= i < nodes.len() ==> (#[trigger] nodes[i]).seq.position
                <= nodes[highest(nodes)].seq.position,
    decreases nodes.len(),
{
    if nodes.len() > 1 {
        let init = nodes.drop_last();
        lemma_highest(init);
        assert forall|i: int| 0 <= i < nodes.len() implies (#[trigger] nodes[i]).seq.position
            <= nodes[highest(nodes)].seq.position by {
            if i < init.len() {
                assert(init[i].seq.position <= init[highest(init)].seq.position);
            }
        }
    }
}

/// Making room succeeds as far as the index reaches: as many blocks leave as were
/// asked for, or all of them; what leaves was there, and the rest stays.
pub proof fn allocation_is_complete(v: InactiveView, n: nat, counts: FrequencyView)
    requires
        v.wf(),
    ensures
        v.allocated(n, counts).0.wf(),
        v.allocated(n, counts).1.len() == if n <= v.nodes.len() {
            n
        } else {
            v.nodes.len()
        },
        v.allocated(n, counts).0.nodes.len() + v.allocated(n, counts).1.len() == v.nodes.len(),
        forall|i: int|
            0 <= i < v.allocated(n, counts).1.len() ==> holds(
                v.nodes,
                (#[trigger] v.allocated(n, counts).1[i]).seq,
            ),
    decreases n,
{
    if n > 0 {
        if v.nodes.len() > 0 {
            lemma_some_leaf(v);
        }
        match v.victim() {
            None => {},
            Some(seq) => {
                victim_is_a_cold_leaf(v);
                remove_keeps_wf(v, seq, counts);
                let w = v.removed(seq, counts);
                allocation_is_complete(w, (n - 1) as nat, counts);
                let more = w.allocated((n - 1) as nat, counts).1;
                assert forall|i: int|
                    0 <= i < v.allocated(n, counts).1.len() implies holds(
                    v.nodes,
                    (#[trigger] v.allocated(n, counts).1[i]).seq,
                ) by {
                    if i > 0 {
                        assert(v.allocated(n, counts).1[i] == more[i - 1]);
                        assert(holds(w.nodes, more[i - 1].seq));
                    }
                }
            },
        }
    }
}

/// The index as stored.
pub struct InactiveIndex {
    pub nodes: Vec<Node>,
    pub leaves: Vec<Leaf>,
}

impl View for InactiveIndex {
    type V = InactiveView;

    open spec fn view(&self) -> InactiveView {
        InactiveView { nodes: self.nodes@, leaves: self.leaves@ }
    }
}

impl InactiveIndex {
    /// No block.
    pub fn new() -> (x: Self)
        ensures
            x@ == InactiveView::empty(),
            x@.wf(),
    {
        InactiveIndex { nodes: Vec::new(), leaves: Vec::new() }
    }

    /// The number of blocks.
    pub fn len(&self) -> (n: usize)
        ensures
            n == self@.nodes.len(),
    {
        self.nodes.len()
    }

    /// Tells whether the block is there.
    pub fn has(&self, seq: &SequenceHash) -> (b: bool)
        ensures
            b == holds(self@.nodes, *seq),
    {
        let mut i: usize = 0;
        while i < self.nodes.len()
            invariant
                i <= self.nodes@.len(),
                forall|j: int| 0 <= j < i ==> (#[trigger] self.nodes@[j]).seq != *seq,
            decreases self.nodes@.len() - i,
        {
            if self.nodes[i].seq == *seq {
                assert(self.nodes@[i as int].seq == *seq);
                return true;
            }
            i += 1;
        }
        false
    }

    fn has_child(nodes: &Vec<Node>, seq: &SequenceHash) -> (b: bool)
        ensures
            b == has_child(nodes@, *seq),
    {
        let mut i: usize = 0;
        while i < nodes.len()
            invariant
                i <= nodes@.len(),
                forall|j: int| 0 <= j < i ==> !(#[trigger] nodes@[j]).seq.follows(*seq),
            decreases nodes@.len() - i,
        {
            if nodes[i].seq.is_child_of(seq) {
                assert(nodes@[i as int].seq.follows(*seq));
                return true;
            }
            i += 1;
        }
        false
    }

    /// Adds a block that is not there.
    pub fn insert(&mut self, seq: SequenceHash, block_id: u64, tracker: &FrequencyTracker)
        requires
            old(self)@.wf(),
        ensures
            final(self)@ == old(self)@.inserted(seq, block_id, tracker@),
            final(self)@.wf(),
    {
        let ghost v = self@;
        proof {
            insert_keeps_wf(v, seq, block_id, tracker@);
        }
        if self.has(&seq) {
            return;
        }
        let leaf = !InactiveIndex::has_child(&self.nodes, &seq);
        let ghost p = |l: Leaf| !seq.follows(l.seq);
        let mut kept: Vec<Leaf> = Vec::new();
        let mut i: usize = 0;
        assert(v.leaves.take(0).filter(p) =~= Seq::empty()) by {
            reveal(Seq::filter);
        }
        while i < self.leaves.len()
            invariant
                i <= self.leaves@.len(),
                self@ == v,
                p == (|l: Leaf| !seq.follows(l.seq)),
                kept@ == v.leaves.take(i as int).filter(p),
            decreases self.leaves@.len() - i,
        {
            let l = self.leaves[i];
            proof {
                reveal(Seq::filter);
                assert(v.leaves.take(i + 1).drop_last() =~= v.leaves.take(i as int));
            }
            if !seq.is_child_of(&l.seq) {
                kept.push(l);
            }
            i += 1;
        }
        assert(v.leaves.take(i as int) =~= v.leaves);
        if leaf {
            kept.push(Leaf { seq, level: tracker.level(&seq) });
        }
        self.leaves = kept;
        self.nodes.push(Node { seq, block_id });
        assert(self@ =~= v.inserted(seq, block_id, tracker@));
    }

    /// Takes a block out; tells whether it was there.
    pub fn take(&mut self, seq: &SequenceHash, tracker: &FrequencyTracker) -> (taken: bool)
        requires
            old(self)@.wf(),
        ensures
            final(self)@ == old(self)@.removed(*seq, tracker@),
            taken == holds(old(self)@.nodes, *seq),
            final(self)@.wf(),
    {
        let ghost v = self@;
        proof {
            remove_keeps_wf(v, *seq, tracker@);
        }
        if !self.has(seq) {
            return false;
        }
        let ghost p = |n: Node| n.seq != *seq;
        let ghost q = |l: Leaf| l.seq != *seq;
        let mut nodes: Vec<Node> = Vec::new();
        let mut i: usize = 0;
        assert(v.nodes.take(0).filter(p) =~= Seq::empty()) by {
            reveal(Seq::filter);
        }
        while i < self.nodes.len()
            invariant
                i <= self.nodes@.len(),
                self@ == v,
                p == (|n: Node| n.seq != *seq),
                nodes@ == v.nodes.take(i as int).filter(p),
            decreases self.nodes@.len() - i,
        {
            let n = self.nodes[i];
            proof {
                reveal(Seq::filter);
                assert(v.nodes.take(i + 1).drop_last() =~= v.nodes.take(i as int));
            }
            if n.seq != *seq {
                nodes.push(n);
            }
            i += 1;
        }
        assert(v.nodes.take(i as int) =~= v.nodes);
        let mut leaves: Vec<Leaf> = Vec::new();
        let mut j: usize = 0;
        assert(v.leaves.take(0).filter(q) =~= Seq::empty()) by {
            reveal(Seq::filter);
        }
        while j < self.leaves.len()
            invariant
                j <= self.leaves@.len(),
                self@ == v,
                q == (|l: Leaf| l.seq != *seq),
                leaves@ == v.leaves.take(j as int).filter(q),
            decreases self.leaves@.len() - j,
        {
            let l = self.leaves[j];
            proof {
                reveal(Seq::filter);
                assert(v.leaves.take(j + 1).drop_last() =~= v.leaves.take(j as int));
            }
            if l.seq != *seq {
                leaves.push(l);
            }
            j += 1;
        }
        assert(v.leaves.take(j as int) =~= v.leaves);
        let ghost kept = leaves@;
        let ghost all = nodes@;
        let ghost f = |n: Node| (*seq).follows(n.seq) && !has_child(all, n.seq);
        let mut k: usize = 0;
        assert(leaves_for(all.take(0).filter(f), tracker@) =~= Seq::empty()) by {
            reveal(Seq::filter);
        }
        assert(leaves@ =~= kept + leaves_for(all.take(0).filter(f), tracker@));
        while k < nodes.len()
            invariant
                k <= nodes@.len(),
                nodes@ == all,
                f == (|n: Node| (*seq).follows(n.seq) && !has_child(all, n.seq)),
                leaves@ == kept + leaves_for(all.take(k as int).filter(f), tracker@),
            decreases nodes@.len() - k,
        {
            let n = nodes[k];
            proof {
                reveal(Seq::filter);
                assert(all.take(k + 1).drop_last() =~= all.take(k as int));
            }
            let ghost before = all.take(k as int).filter(f);
            if seq.is_child_of(&n.seq) && !InactiveIndex::has_child(&nodes, &n.seq) {
                let l = Leaf { seq: n.seq, level: tracker.level(&n.seq) };
                leaves.push(l);
                assert(all.take(k + 1).filter(f) == before.push(n));
                assert(leaves_for(before.push(n), tracker@) =~= leaves_for(before, tracker@).push(
                    l,
                ));
                assert(leaves@ =~= kept + leaves_for(all.take(k + 1).filter(f), tracker@));
            }
            k += 1;
        }
        assert(all.take(k as int) =~= all);
        self.nodes = nodes;
        self.leaves = leaves;
        assert(self@ =~= v.removed(*seq, tracker@));
        true
    }

    fn next_victim(&self) -> (i: usize)
        requires
            self@.leaves.len() > 0,
        ensures
            is_victim(self@.leaves, i as int),
    {
        let mut best: usize = 0;
        let mut i: usize = 1;
        while i < self.leaves.len()
            invariant
                0 < i <= self.leaves@.len(),
                best < i,
                forall|j: int|
                    0 <= j < i ==> self.leaves@[best as int].level <= (
                    #[trigger] self.leaves@[j]).level,
                forall|j: int|
                    0 <= j < best ==> self.leaves@[best as int].level < (
                    #[trigger] self.leaves@[j]).level,
            decreases self.leaves@.len() - i,
        {
            if self.leaves[i].level < self.leaves[best].level {
                best = i;
            }
            i += 1;
        }
        best
    }

    /// Takes up to `n` blocks out, each time the oldest leaf of the lowest level.
    pub fn allocate(&mut self, n: u64, tracker: &FrequencyTracker) -> (victims: Vec<Node>)
        requires
            old(self)@.wf(),
        ensures
            final(self)@ == old(self)@.allocated(n as nat, tracker@).0,
            victims@ == old(self)@.allocated(n as nat, tracker@).1,
            final(self)@.wf(),
            victims@.len() <= n,
    {
        let ghost v = self@;
        let ghost goal = v.allocated(n as nat, tracker@);
        let mut victims: Vec<Node> = Vec::new();
        assert(goal.1 =~= victims@ + goal.1);
        while (victims.len() as u64) < n && self.leaves.len() > 0
            invariant
                victims@.len() <= n,
                self@.wf(),
                goal.0 == self@.allocated((n - victims@.len()) as nat, tracker@).0,
                goal.1 == victims@ + self@.allocated((n - victims@.len()) as nat, tracker@).1,
            decreases n - victims@.len(),
        {
            let ghost s = self@;
            let at: usize = self.next_victim();
            let seq = self.leaves[at].seq;
            proof {
                lemma_victim(s, at as int);
                victim_is_a_cold_leaf(s);
            }
            let block_id: u64 = self.id_of(&seq);
            self.take(&seq, tracker);
            let ghost before = victims@;
            victims.push(Node { seq, block_id });
            proof {
                let left = (n - before.len()) as nat;
                let more = s.removed(seq, tracker@).allocated((left - 1) as nat, tracker@).1;
                assert(s.allocated(left, tracker@).1 == seq![Node { seq, block_id }] + more);
                assert(goal.1 =~= victims@ + more);
            }
        }
        assert(goal.1 =~= victims@);
        victims
    }

    fn id_of(&self, seq: &SequenceHash) -> (id: u64)
        requires
            self@.wf(),
            holds(self@.nodes, *seq),
        ensures
            id == self@.id_of(*seq),
    {
        let mut i: usize = 0;
        while i < self.nodes.len()
            invariant
                i <= self.nodes@.len(),
                self@.wf(),
                holds(self@.nodes, *seq),
                forall|j: int| 0 <= j < i ==> (#[trigger] self.nodes@[j]).seq != *seq,
            decreases self.nodes@.len() - i,
        {
            if self.nodes[i].seq == *seq {
                proof {
                    let j = choose|j: int|
                        0 <= j < self@.nodes.len() && (#[trigger] self@.nodes[j]).seq == *seq;
                    if i != j {
                        assert(self@.nodes[i as int].seq != self@.nodes[j].seq);
                    }
                }
                return self.nodes[i].block_id;
            }
            i += 1;
        }
        proof {
            let j = choose|j: int|
                0 <= j < self@.nodes.len() && (#[trigger] self@.nodes[j]).seq == *seq;
            assert(self.nodes@[j].seq != *seq);
        }
        0
    }
}

/// Halving keeps the order of counts.
pub proof fn ageing_keeps_order(f: FrequencyView, a: SequenceHash, b: SequenceHash)
    requires
        count_of(f, a) <= count_of(f, b),
    ensures
        count_of(FrequencyView { counts: halved(f.counts), ..f }, a) <= count_of(
            FrequencyView { counts: halved(f.counts), ..f },
            b,
        ),
{
}

/// What is not asked for any more is forgotten once counts were halved four times.
pub proof fn ageing_forgets(counts: Map<SequenceHash, u8>)
    requires
        forall|s: SequenceHash| #[trigger] counts.contains_key(s) ==> counts[s] <= MAX_COUNT,
    ensures
        halved(halved(halved(halved(counts)))) == Map::<SequenceHash, u8>::empty(),
{
    assert(halved(halved(halved(halved(counts)))) =~= Map::empty());
}

/// Counts never pass their maximum.
pub proof fn counts_are_bounded(f: FrequencyView, seq: SequenceHash)
    requires
        forall|s: SequenceHash| #[trigger] f.counts.contains_key(s) ==> f.counts[s] <= MAX_COUNT,
    ensures
        forall|s: SequenceHash| #[trigger]
            touched(f, seq).counts.contains_key(s) ==> touched(f, seq).counts[s] <= MAX_COUNT,
{
}

/// A leaf of this level is warmer than a block asked for so often: a block is cold below
/// three requests, warm below eight and warmer below fifteen.
pub open spec fn warmer(level: u8, count: u8) -> bool {
    ||| level > 0 && count < 3
    ||| level > 1 && count < 8
    ||| level > 2 && count < 15
    ||| level > 3
}

/// A newcomer leaves next exactly where every other block that may leave is warmer than it:
/// among equals it is the last.
pub proof fn newcomer_waits_for_its_equals(
    v: InactiveView,
    seq: SequenceHash,
    block_id: u64,
    counts: FrequencyView,
)
    requires
        v.wf(),
        !holds(v.nodes, seq),
        !has_child(v.nodes, seq),
    ensures
        v.inserted(seq, block_id, counts).victim() == Some(seq) <==> forall|i: int|
            0 <= i < v.leaves.len() && !seq.follows((#[trigger] v.leaves[i]).seq) ==> warmer(
                v.leaves[i].level,
                count_of(counts, seq),
            ),
{
    let p = |l: Leaf| !seq.follows(l.seq);
    let kept = v.leaves.filter(p);
    let w = v.inserted(seq, block_id, counts);
    crate::base::queue::lemma_filter(v.leaves, p);
    insert_keeps_wf(v, seq, block_id, counts);
    lemma_victim_exists(w.leaves);
    let c = choose|i: int| is_victim(w.leaves, i);
    let last = (w.leaves.len() - 1) as int;
    assert(w.leaves[last].seq == seq);
    if c == last {
        assert forall|i: int|
            0 <= i < v.leaves.len() && !seq.follows((#[trigger] v.leaves[i]).seq) implies warmer(
            v.leaves[i].level,
            count_of(counts, seq),
        ) by {
            assert(kept.contains(v.leaves[i]));
            let m = choose|m: int| 0 <= m < kept.len() && kept[m] == v.leaves[i];
            assert(w.leaves[m] == v.leaves[i]);
        }
    } else {
        assert(w.leaves[c] == kept[c]);
        assert(kept.contains(kept[c]));
        let m = choose|m: int| 0 <= m < v.leaves.len() && v.leaves[m] == kept[c];
        assert(w.leaves[c].level <= w.leaves[last].level);
        assert(v.leaves[m].seq == w.leaves[c].seq);
        assert(w.leaves[c].seq != seq);
        assert(!warmer(v.leaves[m].level, count_of(counts, seq)));
    }
}

/// A block that comes up because its last child left is as warm as it was asked for, and the
/// others keep their warmth.
pub proof fn parents_come_up_as_warm_as_asked_for(
    v: InactiveView,
    seq: SequenceHash,
    counts: FrequencyView,
    i: int,
)
    requires
        v.wf(),
        0 <= i < v.removed(seq, counts).leaves.len(),
    ensures
        ({
            let l = v.removed(seq, counts).leaves[i];
            ||| v.leaves.contains(l)
            ||| {
                &&& seq.follows(l.seq)
                &&& (l.level == 0) == (count_of(counts, l.seq) < 3)
                &&& (l.level <= 1) == (count_of(counts, l.seq) < 8)
                &&& (l.level <= 2) == (count_of(counts, l.seq) < 15)
            }
        }),
{
    if holds(v.nodes, seq) {
        let p = |l: Leaf| l.seq != seq;
        let stay = v.leaves.filter(p);
        crate::base::queue::lemma_filter(v.leaves, p);
        let nodes = v.nodes.filter(|n: Node| n.seq != seq);
        let q = |n: Node| seq.follows(n.seq) && !has_child(nodes, n.seq);
        let up = nodes.filter(q);
        crate::base::queue::lemma_filter(nodes, q);
        let l = v.removed(seq, counts).leaves[i];
        if i < stay.len() {
            assert(stay.contains(l));
        } else {
            assert(up.contains(up[i - stay.len()]));
        }
    } else {
        assert(v.leaves.contains(v.leaves[i]));
    }
}

/// A request counts once for the block that is asked for, up to the most that is counted, and
/// for no other. With enough requests all counts are halved.
pub proof fn requests_are_counted(f: FrequencyView, seq: SequenceHash, other: SequenceHash)
    requires
        forall|s: SequenceHash| #[trigger] f.counts.contains_key(s) ==> f.counts[s] <= MAX_COUNT,
        other != seq,
        f.asked < AGE_AFTER,
    ensures
        ({
            let g = touched(f, seq);
            let one: int = if count_of(f, seq) + 1 < MAX_COUNT {
                count_of(f, seq) + 1
            } else {
                MAX_COUNT as int
            };
            let halve = f.asked + 1 == AGE_AFTER;
            &&& count_of(g, seq) == (if halve {
                one / 2
            } else {
                one
            })
            &&& count_of(g, other) == (if halve {
                count_of(f, other) / 2
            } else {
                count_of(f, other)
            })
            &&& g.asked == (if halve {
                AGE_AFTER / 2
            } else {
                (f.asked + 1) as u32
            })
        }),
{
}

/// Blocks leave one after another: who leaves first is the one that leaves next, and taking
/// some and then more is taking all of them at once.
pub proof fn blocks_leave_one_after_another(
    v: InactiveView,
    m: nat,
    n: nat,
    counts: FrequencyView,
)
    ensures
        v.allocated(m + n, counts).1 == v.allocated(m, counts).1 + v.allocated(
            m,
            counts,
        ).0.allocated(n, counts).1,
        v.allocated(m + n, counts).0 == v.allocated(m, counts).0.allocated(n, counts).0,
        v.allocated(m + 1, counts).1.len() > 0 ==> v.victim() == Some(
            v.allocated(m + 1, counts).1[0].seq,
        ),
    decreases m,
{
    if m == 0 {
        assert(v.allocated(0, counts).1 + v.allocated(n, counts).1 =~= v.allocated(n, counts).1);
    } else {
        match v.victim() {
            None => {
                assert(v.allocated(n, counts) == (v, Seq::<Node>::empty()));
                assert(Seq::<Node>::empty() + Seq::<Node>::empty() =~= Seq::<Node>::empty());
            },
            Some(seq) => {
                let w = v.removed(seq, counts);
                let m1 = (m - 1) as nat;
                blocks_leave_one_after_another(w, m1, n, counts);
                assert((m + n - 1) as nat == m1 + n);
                let node = Node { seq, block_id: v.id_of(seq) };
                assert(v.allocated(m + n, counts).1 == seq![node] + w.allocated(m1 + n, counts).1);
                assert(v.allocated(m, counts).1 == seq![node] + w.allocated(m1, counts).1);
                assert(v.allocated(m + n, counts).1 =~= v.allocated(m, counts).1 + v.allocated(
                    m,
                    counts,
                ).0.allocated(n, counts).1);
            },
        }
    }
}

} // verus!
