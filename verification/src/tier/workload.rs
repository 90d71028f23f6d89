//! A synthetic workload for the engine: requests for chains of blocks, some of which
//! many requests share, and what serving them moves.

use vstd::bytes::*;
use vstd::prelude::*;

use crate::tier::engine;
use crate::tier::engine::{EffectsView, EngineView, LocalTierEngine, TierCaps};
use crate::tier::segment::{ArenaView, DEFAULT_SLOT_BYTES};
use crate::tier::stats::{AccessKind, HitStats};

verus! {

/// Bytes of a block.
pub const BLOCK_BYTES: usize = 4096;

/// Chains that requests share.
pub const HOT_PREFIXES: u64 = 256;

/// Chains that requests do not share on purpose.
pub const UNIQUE_PREFIXES: u64 = 4096;

/// Blocks of a request.
pub const BLOCKS_PER_REQ: u64 = 16;

/// Requests that counts are certain to hold.
pub const MAX_REQUESTS: usize = 200_000_000;

/// A generator of numbers: a register that is shifted and added to itself without
/// carry.
pub struct Rng {
    pub state: u64,
}

/// The register after one step.
pub open spec fn stepped(x: u64) -> u64 {
    let a = x ^ (x << 13);
    let b = a ^ (a >> 7);
    b ^ (b << 17)
}

impl Rng {
    /// The next number.
    pub fn next(&mut self) -> (x: u64)
        ensures
            x == stepped(old(self).state),
            final(self).state == x,
    {
        let mut x: u64 = self.state;
        x = x ^ (x << 13);
        x = x ^ (x >> 7);
        x = x ^ (x << 17);
        self.state = x;
        x
    }

    /// A number below `n`.
    pub fn below(&mut self, n: u64) -> (x: u64)
        requires
            n > 0,
        ensures
            x == stepped(old(self).state) % n,
            final(self).state == stepped(old(self).state),
    {
        self.next() % n
    }

    /// Yes in so many of a hundred cases.
    pub fn chance(&mut self, pct: u64) -> (yes: bool)
        ensures
            yes == (stepped(old(self).state) % 100 < pct),
            final(self).state == stepped(old(self).state),
    {
        self.below(100) < pct
    }
}

/// A generator that does not start at zero never gets there.
pub proof fn generator_never_stops(x: u64)
    requires
        x != 0,
    ensures
        stepped(x) != 0,
{
    let a = x ^ (x << 13);
    let b = a ^ (a >> 7);
    assert(x != 0 ==> x ^ (x << 13) != 0) by (bit_vector);
    assert(a != 0 ==> a ^ (a >> 7) != 0) by (bit_vector);
    assert(b != 0 ==> b ^ (b << 17) != 0) by (bit_vector);
}

/// A chain that is not shared on purpose.
pub fn unique_prefix(rng: &mut Rng) -> (prefix: u64)
    ensures
        prefix == HOT_PREFIXES + stepped(old(rng).state) % UNIQUE_PREFIXES,
        final(rng).state == stepped(old(rng).state),
{
    HOT_PREFIXES + rng.below(UNIQUE_PREFIXES)
}

/// The `i`-th block of a chain.
pub open spec fn block_number(prefix: u64, i: u64) -> u64 {
    (prefix << 32) | i
}

/// The blocks of a request for a chain.
pub open spec fn request_of(prefix: u64) -> Seq<u64> {
    Seq::new(BLOCKS_PER_REQ as nat, |i: int| block_number(prefix, i as u64))
}

/// The blocks of a request for a chain.
pub fn gen_request(prefix: u64) -> (blocks: Vec<u64>)
    ensures
        blocks@ == request_of(prefix),
{
    let mut blocks: Vec<u64> = Vec::with_capacity(16);
    let mut i: u64 = 0;
    while i < BLOCKS_PER_REQ
        invariant
            i <= BLOCKS_PER_REQ,
            blocks@.len() == i,
            forall|j: int| 0 <= j < i ==> #[trigger] blocks@[j] == block_number(prefix, j as u64),
        decreases BLOCKS_PER_REQ - i,
    {
        blocks.push((prefix << 32) | i);
        i += 1;
    }
    assert(blocks@ =~= request_of(prefix));
    blocks
}

/// Blocks of different chains, or at different places of one, are different.
pub proof fn blocks_are_told_apart(p: u64, i: u64, q: u64, j: u64)
    requires
        p < 0x1_0000_0000,
        q < 0x1_0000_0000,
        i < BLOCKS_PER_REQ,
        j < BLOCKS_PER_REQ,
    ensures
        block_number(p, i) == block_number(q, j) ==> p == q && i == j,
{
    assert(p < 0x1_0000_0000 && q < 0x1_0000_0000 && i < 16 && j < 16 && ((p << 32) | i) == ((q
        << 32) | j) ==> p == q && i == j) by (bit_vector);
}

/// What serving requests moved.
#[derive(Debug, Clone, Copy, PartialEq, Eq, Structural)]
pub struct Tally {
    pub write_bytes: u64,
    pub moved_bytes: u64,
    pub promotes: u64,
}

/// An engine that serves requests, and what it moved.
#[verifier::ext_equal]
pub struct RunView {
    pub engine: EngineView,
    pub write_bytes: int,
    pub moved_bytes: int,
    pub promotes: int,
}

/// The bytes of a block.
pub open spec fn zero_block() -> Seq<u8> {
    Seq::new(BLOCK_BYTES as nat, |i: int| 0u8)
}

/// The bytes that side effects moved.
pub open spec fn shed_bytes(fx: EffectsView) -> int {
    (fx.l0_demoted.len() + fx.l2_demoted_to_l3.len()) * BLOCK_BYTES
}

impl RunView {
    /// An engine that has served nothing.
    pub open spec fn fresh(engine: EngineView) -> RunView {
        RunView { engine, write_bytes: 0, moved_bytes: 0, promotes: 0 }
    }

    /// A block is served: one that is not there is written, and one that is farther
    /// than L0 is promoted, by way of the admission where that is asked for.
    pub open spec fn served(self, n: u64, admitted: bool) -> RunView {
        let h = spec_u64_to_le_bytes(n);
        let e = self.engine.probed(h);
        match self.engine.access(h) {
            AccessKind::L0Hit => RunView { engine: e, ..self },
            AccessKind::Miss => {
                let (f, r) = e.put_durable(h, zero_block());
                RunView {
                    engine: f,
                    write_bytes: self.write_bytes + BLOCK_BYTES,
                    moved_bytes: self.moved_bytes + shed_bytes(r->Ok_0.1),
                    ..self
                }
            },
            _ => {
                let (f, r) = if admitted {
                    e.promoted_admitted(h)
                } else {
                    e.promoted(h)
                };
                match r {
                    Ok((_, fx)) => RunView {
                        engine: f,
                        moved_bytes: self.moved_bytes + BLOCK_BYTES + shed_bytes(fx),
                        promotes: self.promotes + 1,
                        ..self
                    },
                    Err(_) => RunView { engine: f, ..self },
                }
            },
        }
    }

    /// Blocks are served, in order.
    pub open spec fn served_all(self, blocks: Seq<u64>, admitted: bool) -> RunView
        decreases blocks.len(),
    {
        if blocks.len() == 0 {
            self
        } else {
            self.served_all(blocks.drop_last(), admitted).served(blocks.last(), admitted)
        }
    }

    /// Requests for chains are served, in order.
    pub open spec fn driven(self, prefixes: Seq<u64>, admitted: bool) -> RunView
        decreases prefixes.len(),
    {
        if prefixes.len() == 0 {
            self
        } else {
            self.driven(prefixes.drop_last(), admitted).served_all(
                request_of(prefixes.last()),
                admitted,
            )
        }
    }

    /// What `n` accesses can have led to.
    spec fn within(self, n: int) -> bool {
        let e = self.engine;
        &&& e.wf()
        &&& forall|x: Seq<u8>| #[trigger] e.pin_count(x) == 0
        &&& e.caps.l2 == 0 || e.l2.len() <= e.caps.l2
        &&& forall|x: Seq<u8>| #[trigger] e.hit_count(x) <= n
        &&& e.stats.l0 <= n
        &&& e.stats.l1 <= n
        &&& e.stats.l2 <= n
        &&& e.stats.l3 <= n
        &&& e.stats.miss <= n
        &&& e.stats.total_cost <= 1000 * n
        &&& e.arena.next_seg <= n + 1
        &&& 0 <= self.write_bytes <= 4096 * n
        &&& 0 <= self.moved_bytes <= 12288 * n
        &&& 0 <= self.promotes <= n
    }
}

/// The counts of an engine and what it moved.
pub open spec fn counted(r: RunView, s: HitStats, t: Tally) -> bool {
    &&& s == r.engine.stats
    &&& t.write_bytes == r.write_bytes
    &&& t.moved_bytes == r.moved_bytes
    &&& t.promotes == r.promotes
}

/// An engine that serves requests.
pub struct Run {
    pub engine: LocalTierEngine,
    pub tally: Tally,
}

impl View for Run {
    type V = RunView;

    open spec fn view(&self) -> RunView {
        RunView {
            engine: self.engine@,
            write_bytes: self.tally.write_bytes as int,
            moved_bytes: self.tally.moved_bytes as int,
            promotes: self.tally.promotes as int,
        }
    }
}

/// One more access stays within what it can lead to.
proof fn lemma_served(r: RunView, n: int, b: u64, admitted: bool)
    requires
        r.within(n),
        0 <= n < 0xffff_ffff,
        r.served(b, admitted).engine.wf(),
    ensures
        r.served(b, admitted).within(n + 1),
        r.engine.access(spec_u64_to_le_bytes(b)) == AccessKind::Miss ==> r.engine.probed(
            spec_u64_to_le_bytes(b),
        ).put_durable(spec_u64_to_le_bytes(b), zero_block()).1 is Ok,
{
    let h = spec_u64_to_le_bytes(b);
    let e0 = r.engine;
    let e = e0.probed(h);
    let s = r.served(b, admitted);
    assert(e0.hit_count(h) <= n);
    assert forall|x: Seq<u8>| #[trigger] e.pin_count(x) == 0 by {
        assert(e0.pin_count(x) == 0);
    }
    assert forall|x: Seq<u8>| #[trigger] e.hit_count(x) <= n + 1 by {
        assert(e0.hit_count(x) <= n);
    }
    let kind = e0.access(h);
    if kind == AccessKind::Miss {
        engine::one_block_leaves_for_one(e, h, zero_block());
        assert(e.wf());
        engine::put_opens_one_segment(e, h, zero_block());
        assert forall|x: Seq<u8>| #[trigger] s.engine.pin_count(x) == 0 by {
            assert(e.pin_count(x) == 0);
        }
        assert forall|x: Seq<u8>| #[trigger] s.engine.hit_count(x) <= n + 1 by {
            assert(e.hit_count(x) <= n + 1);
        }
    } else if kind == AccessKind::L0Hit {
    } else {
        assert(e.wf());
        engine::promotion_opens_one_segment(e, h);
        if e.read(h) is Some {
            engine::one_block_leaves_for_one(e, h, e.read(h)->0);
        }
        assert forall|x: Seq<u8>| #[trigger] s.engine.pin_count(x) == 0 by {
            assert(e.pin_count(x) == 0);
        }
        assert forall|x: Seq<u8>| #[trigger] s.engine.hit_count(x) <= n + 1 by {
            assert(e.hit_count(x) <= n + 1);
        }
    }
}

impl Run {
    /// An engine that has served nothing.
    pub fn new(engine: LocalTierEngine) -> (r: Self)
        ensures
            r@ == RunView::fresh(engine@),
    {
        Run { engine, tally: Tally { write_bytes: 0, moved_bytes: 0, promotes: 0 } }
    }

    /// Serves a block.
    fn serve(&mut self, n: u64, admitted: bool, Ghost(k): Ghost<int>)
        requires
            old(self)@.within(k),
            0 <= k < 0xffff_ffff,
        ensures
            final(self)@ == old(self)@.served(n, admitted),
            final(self)@.within(k + 1),
    {
        let h = u64_to_le_bytes(n);
        let ghost r0 = self@;
        assert(self.engine@.hit_count(h@) <= k);
        match self.engine.probe(h.as_slice()) {
            AccessKind::L0Hit => {},
            AccessKind::Miss => {
                let ghost e = self.engine@;
                proof {
                    assert forall|x: Seq<u8>| #[trigger] e.pin_count(x) == 0 by {
                        assert(r0.engine.pin_count(x) == 0);
                    }
                    engine::one_block_leaves_for_one(e, h@, zero_block());
                }
                let block: Vec<u8> = vec![0u8; BLOCK_BYTES];
                assert(block@ =~= zero_block());
                match self.engine.put_durable(h.as_slice(), block.as_slice()) {
                    Ok((_, fx)) => {
                        assert(fx@.l2_demoted_to_l3.len() == fx.l2_demoted_to_l3@.len());
                        assert(fx@.l0_demoted.len() == fx.l0_demoted@.len());
                        self.tally.write_bytes = self.tally.write_bytes + 4096;
                        self.tally.moved_bytes = self.tally.moved_bytes + (fx.l0_demoted.len()
                            as u64 + fx.l2_demoted_to_l3.len() as u64) * 4096;
                    },
                    Err(_) => { vstd::pervasive::unreached() },
                }
            },
            _ => {
                let ghost e = self.engine@;
                proof {
                    assert forall|x: Seq<u8>| #[trigger] e.pin_count(x) == 0 by {
                        assert(r0.engine.pin_count(x) == 0);
                    }
                    if e.read(h@) is Some {
                        engine::one_block_leaves_for_one(e, h@, e.read(h@)->0);
                    }
                }
                let r = if admitted {
                    self.engine.promote_to_l0_admitted(h.as_slice())
                } else {
                    self.engine.promote_to_l0(h.as_slice())
                };
                match r {
                    Ok((_, fx)) => {
                        assert(fx@.l2_demoted_to_l3.len() == fx.l2_demoted_to_l3@.len());
                        assert(fx@.l0_demoted.len() == fx.l0_demoted@.len());
                        self.tally.promotes = self.tally.promotes + 1;
                        self.tally.moved_bytes = self.tally.moved_bytes + 4096 + (
                        fx.l0_demoted.len() as u64 + fx.l2_demoted_to_l3.len() as u64) * 4096;
                    },
                    Err(_) => {},
                }
            },
        }
        proof {
            lemma_served(r0, k, n, admitted);
        }
    }

    /// Serves requests for chains.
    fn drive_on(&mut self, prefixes: &[u64], admitted: bool)
        requires
            old(self)@.within(0),
            prefixes@.len() <= MAX_REQUESTS,
        ensures
            final(self)@ == old(self)@.driven(prefixes@, admitted),
    {
        let ghost start = self@;
        let mut i: usize = 0;
        assert(prefixes@.take(0) =~= Seq::empty());
        while i < prefixes.len()
            invariant
                i <= prefixes@.len() <= MAX_REQUESTS,
                start == old(self)@,
                self@ == start.driven(prefixes@.take(i as int), admitted),
                self@.within(16 * i),
            decreases prefixes.len() - i,
        {
            let ghost before = self@;
            proof {
                assert(prefixes@.take(i + 1).drop_last() =~= prefixes@.take(i as int));
                assert(prefixes@.take(i + 1).last() == prefixes@[i as int]);
            }
            let blocks = gen_request(prefixes[i]);
            let mut j: usize = 0;
            assert(blocks@.take(0) =~= Seq::empty());
            while j < blocks.len()
                invariant
                    j <= blocks@.len() == 16,
                    i < prefixes@.len() <= MAX_REQUESTS,
                    self@ == before.served_all(blocks@.take(j as int), admitted),
                    self@.within(16 * i + j),
                decreases blocks.len() - j,
            {
                proof {
                    assert(blocks@.take(j + 1).drop_last() =~= blocks@.take(j as int));
                    assert(blocks@.take(j + 1).last() == blocks@[j as int]);
                }
                self.serve(blocks[j], admitted, Ghost(16 * i + j));
                j += 1;
            }
            assert(blocks@.take(j as int) =~= blocks@);
            i += 1;
        }
        assert(prefixes@.take(i as int) =~= prefixes@);
    }
}

/// The engine that a workload starts with.
pub open spec fn engine_of(caps: TierCaps) -> EngineView {
    EngineView::fresh(caps, ArenaView::fresh(DEFAULT_SLOT_BYTES, 64))
}

/// Serves requests for chains with a new engine: the accesses by tier, and what they
/// moved.
pub fn drive(caps: TierCaps, prefixes: &[u64]) -> (r: (HitStats, Tally))
    requires
        prefixes@.len() <= MAX_REQUESTS,
    ensures
        counted(RunView::fresh(engine_of(caps)).driven(prefixes@, false), r.0, r.1),
{
    let mut run = Run::new(LocalTierEngine::with_caps(caps));
    run.drive_on(prefixes, false);
    (run.engine.stats, run.tally)
}

/// Serves requests for chains with a new engine in which only blocks with enough hits
/// stay in L0.
pub fn drive_admitted(caps: TierCaps, prefixes: &[u64], admit_after: u32) -> (r: (HitStats, Tally))
    requires
        prefixes@.len() <= MAX_REQUESTS,
    ensures
        counted(
            RunView::fresh(
                EngineView {
                    admit_after: if admit_after == 0 {
                        1
                    } else {
                        admit_after
                    },
                    ..engine_of(caps)
                },
            ).driven(prefixes@, true),
            r.0,
            r.1,
        ),
{
    let mut run = Run::new(LocalTierEngine::with_caps(caps).with_promote_admit_after(admit_after));
    run.drive_on(prefixes, true);
    (run.engine.stats, run.tally)
}

/// The length of a prompt, by a number: from 256 to 2048 tokens.
pub open spec fn prompt_length(x: u64) -> int {
    256 + x % 1793
}

/// Tokens of prompts that are reused in whole blocks, and all their tokens; with the
/// register after them.
pub open spec fn reused(state: u64, block: u64, prompts: nat) -> (u64, int, int)
    decreases prompts,
{
    if prompts == 0 {
        (state, 0, 0)
    } else {
        let (before, hit, all) = reused(state, block, (prompts - 1) as nat);
        let x = stepped(before);
        let n = prompt_length(x);
        (x, hit + n / block as int * block, all + n)
    }
}

/// Counts the tokens of prompts that are reused where all of a prompt is known, but only
/// whole blocks of it can be taken; with all their tokens.
pub fn granularity(seed: u64, block: u64, prompts: u32) -> (r: (u64, u64))
    requires
        block > 0,
    ensures
        r.0 == reused(seed, block, prompts as nat).1,
        r.1 == reused(seed, block, prompts as nat).2,
        r.0 <= r.1,
{
    let mut rng = Rng { state: seed };
    let mut hit: u64 = 0;
    let mut all: u64 = 0;
    let mut i: u32 = 0;
    while i < prompts
        invariant
            i <= prompts,
            block > 0,
            reused(seed, block, i as nat) == (rng.state, hit as int, all as int),
            hit <= all <= i * 2048,
        decreases prompts - i,
    {
        let n: u64 = 256 + rng.below(1793);
        assert(0 <= n / block * block <= n) by (nonlinear_arith)
            requires
                block > 0,
        ;
        hit = hit + n / block * block;
        all = all + n;
        i += 1;
    }
    (hit, all)
}

/// Writes of a request's blocks in batches of `batch`.
pub open spec fn batches(blocks: u64, batch: u64) -> int {
    (blocks + batch - 1) / batch as int
}

/// Counts the writes of requests that write their blocks in batches.
pub fn writeback_ops(blocks: u32, batch: u32, requests: u32) -> (ops: u64)
    requires
        batch > 0,
    ensures
        ops == batches(blocks as u64, batch as u64) * requests,
{
    let n: u64 = (blocks as u64 + batch as u64 - 1) / batch as u64;
    assert(0 <= n <= 0x1_ffff_fffe) by (nonlinear_arith)
        requires
            batch > 0,
            n == (blocks + batch - 1) / batch as int,
            blocks <= 0xffff_ffff,
            batch <= 0xffff_ffff,
    ;
    assert(n <= blocks) by (nonlinear_arith)
        requires
            batch > 0,
            n == (blocks + batch - 1) / batch as int,
    ;
    assert(n * requests <= 0xffff_ffff * 0xffff_ffff) by (nonlinear_arith)
        requires
            n <= 0xffff_ffff,
            requests <= 0xffff_ffff,
    ;
    n * requests as u64
}

/// A served block is written exactly where it was nowhere, and promoted at most where it was
/// farther than L0; whatever is moved comes in whole blocks.
pub proof fn serving_writes_what_is_missing(r: RunView, n: u64, admitted: bool)
    ensures
        ({
            let h = spec_u64_to_le_bytes(n);
            let e = r.engine;
            let s = r.served(n, admitted);
            let missing = !e.l0.contains_key(h) && !e.l1.contains_key(h) && !e.l2.contains_key(h)
                && !e.l3.contains_key(h);
            &&& s.write_bytes - r.write_bytes == if missing {
                BLOCK_BYTES as int
            } else {
                0
            }
            &&& e.l0.contains_key(h) ==> s.promotes == r.promotes && s.moved_bytes == r.moved_bytes
            &&& missing ==> s.promotes == r.promotes
            &&& s.promotes == r.promotes || (s.promotes == r.promotes + 1 && s.moved_bytes
                >= r.moved_bytes + BLOCK_BYTES)
            &&& (s.moved_bytes - r.moved_bytes) % (BLOCK_BYTES as int) == 0
            &&& s.moved_bytes >= r.moved_bytes
        }),
{
    let h = spec_u64_to_le_bytes(n);
    let e = r.engine.probed(h);
    let put = e.put_durable(h, zero_block()).1->Ok_0.1;
    lemma_whole_blocks(put.l0_demoted.len() + put.l2_demoted_to_l3.len());
    let fx = e.promoted(h).1->Ok_0.1;
    lemma_whole_blocks(fx.l0_demoted.len() + fx.l2_demoted_to_l3.len());
    let gx = e.promoted_admitted(h).1->Ok_0.1;
    lemma_whole_blocks(gx.l0_demoted.len() + gx.l2_demoted_to_l3.len());
}

proof fn lemma_whole_blocks(n: nat)
    ensures
        (n * BLOCK_BYTES) % (BLOCK_BYTES as int) == 0,
        (BLOCK_BYTES + n * BLOCK_BYTES) % (BLOCK_BYTES as int) == 0,
        n * BLOCK_BYTES >= 0,
{
    assert((n * 4096) % 4096 == 0 && (4096 + n * 4096) % 4096 == 0 && n * 4096 >= 0)
        by (nonlinear_arith)
        requires
            n >= 0,
    ;
}

/// Blocks served together are those served one after another.
pub proof fn serving_comes_in_parts(r: RunView, a: Seq<u64>, b: Seq<u64>, admitted: bool)
    ensures
        r.served_all(a + b, admitted) == r.served_all(a, admitted).served_all(b, admitted),
    decreases b.len(),
{
    if b.len() == 0 {
        assert(a + b =~= a);
    } else {
        serving_comes_in_parts(r, a, b.drop_last(), admitted);
        assert((a + b).drop_last() =~= a + b.drop_last());
        assert((a + b).last() == b.last());
    }
}

/// Of prompts between 256 and 2048 tokens long, whole blocks are reused: no more than there
/// are tokens, and of each prompt less than a block is left over.
pub proof fn whole_blocks_are_reused(state: u64, block: u64, prompts: nat)
    requires
        block > 0,
    ensures
        ({
            let (x, hit, all) = reused(state, block, prompts);
            &&& 256 * prompts <= all <= 2048 * prompts
            &&& 0 <= hit <= all
            &&& all - hit <= (block - 1) * prompts
            &&& hit % (block as int) == 0
        }),
    decreases prompts,
{
    if prompts > 0 {
        let p = (prompts - 1) as nat;
        whole_blocks_are_reused(state, block, p);
        let (before, hit, all) = reused(state, block, p);
        let n = prompt_length(stepped(before));
        let b = block as int;
        vstd::arithmetic::div_mod::lemma_fundamental_div_mod(n, b);
        vstd::arithmetic::div_mod::lemma_mod_bound(n, b);
        assert(n / b * b == b * (n / b)) by (nonlinear_arith);
        assert((b - 1) * prompts == (b - 1) * p + (b - 1)) by (nonlinear_arith)
            requires
                p == prompts - 1,
        ;
        vstd::arithmetic::div_mod::lemma_mod_multiples_vanish(n / b, hit, b);
        assert(0 <= n / b * b) by (nonlinear_arith)
            requires
                n >= 0,
                b > 0,
        ;
    } else {
        vstd::arithmetic::div_mod::lemma_small_mod(0, block as nat);
        assert((block - 1) * prompts == 0) by (nonlinear_arith)
            requires
                prompts == 0,
        ;
    }
}

/// Batches hold all blocks, and one fewer would not.
pub proof fn batches_hold_all_blocks(blocks: u64, batch: u64)
    requires
        batch > 0,
    ensures
        batches(blocks, batch) * batch >= blocks,
        (batches(blocks, batch) - 1) * batch < blocks || blocks == 0,
{
    let n = blocks + batch - 1;
    let b = batch as int;
    vstd::arithmetic::div_mod::lemma_fundamental_div_mod(n, b);
    vstd::arithmetic::div_mod::lemma_mod_bound(n, b);
    assert(n / b * b == b * (n / b)) by (nonlinear_arith);
    assert((n / b - 1) * b == n / b * b - b) by (nonlinear_arith);
}

} // verus!
