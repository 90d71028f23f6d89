//! A registered model: its descriptor, its two pools and the bytes that it is
//! charged for.

use vstd::prelude::*;

use crate::base::keys;
use crate::base::keys::{Dup, Key};
use crate::base::listing::Ordered;
use crate::base::order;
use crate::base::order::{bytes_leq, text_leq, Ranked};
use crate::base::text::text;
use crate::control::pool;
use crate::control::pool::{public_id, Pool, PoolView};
use crate::control::quota;
use crate::control::quota::{clamp, quota_or_default};
use crate::control::view;
use crate::control::view::invalidated_event;
use crate::proto::{
    KvBlockId, KvBlockIdView, ModelDescriptor, ModelDescriptorView, PoolKind, Quota, ViewEvent,
    ViewEventView,
};

verus! {

/// The name of a namespace.
#[derive(Debug, Clone, PartialEq, Eq)]
pub struct NamespaceKey {
    pub model_id: String,
    pub revision: String,
}

impl View for NamespaceKey {
    type V = (Seq<char>, Seq<char>);

    open spec fn view(&self) -> (Seq<char>, Seq<char>) {
        (self.model_id@, self.revision@)
    }
}

impl Dup for NamespaceKey {
    fn dup(&self) -> (copy: Self) {
        NamespaceKey { model_id: self.model_id.dup(), revision: self.revision.dup() }
    }
}

impl Key for NamespaceKey {
    fn same(&self, other: &Self) -> (same: bool) {
        self.model_id.same(&other.model_id) && self.revision.same(&other.revision)
    }
}

impl NamespaceKey {
    /// The name of a model's revision.
    pub fn new(model_id: &str, revision: &str) -> (k: Self)
        ensures
            k@ == (model_id@, revision@),
    {
        NamespaceKey { model_id: text(model_id), revision: text(revision) }
    }

    /// The namespace of an address.
    pub fn from_id(id: &KvBlockId) -> (k: Self)
        ensures
            k@ == (id@.model_id, id@.revision),
    {
        NamespaceKey { model_id: id.model_id.dup(), revision: id.revision.dup() }
    }
}

impl Ranked for NamespaceKey {
    open spec fn ranks(a: (Seq<char>, Seq<char>), b: (Seq<char>, Seq<char>)) -> bool {
        if a.0 != b.0 {
            order::text_le(a.0, b.0)
        } else {
            order::text_le(a.1, b.1)
        }
    }

    fn leq(&self, other: &Self) -> (le: bool) {
        if !self.model_id.same(&other.model_id) {
            text_leq(self.model_id.as_str(), other.model_id.as_str())
        } else {
            text_leq(self.revision.as_str(), other.revision.as_str())
        }
    }
}

impl Ordered for NamespaceKey {
    proof fn rank_total(a: (Seq<char>, Seq<char>), b: (Seq<char>, Seq<char>)) {
        String::rank_total(a.0, b.0);
        String::rank_total(a.1, b.1);
    }

    proof fn rank_transitive(
        a: (Seq<char>, Seq<char>),
        b: (Seq<char>, Seq<char>),
        c: (Seq<char>, Seq<char>),
    ) {
        if a.0 != b.0 && b.0 != c.0 {
            String::rank_transitive(a.0, b.0, c.0);
            if a.0 == c.0 {
                String::rank_antisymmetric(a.0, b.0);
            }
        } else if a.0 == b.0 && b.0 == c.0 {
            String::rank_transitive(a.1, b.1, c.1);
        }
    }

    proof fn rank_antisymmetric(a: (Seq<char>, Seq<char>), b: (Seq<char>, Seq<char>)) {
        if a.0 != b.0 {
            String::rank_antisymmetric(a.0, b.0);
        } else {
            String::rank_antisymmetric(a.1, b.1);
        }
    }
}

/// A block across all namespaces and pools.
#[derive(Debug, Clone, PartialEq, Eq)]
pub struct BlockKey {
    pub model_id: String,
    pub revision: String,
    pub pool_kind: i32,
    pub flat: Vec<u8>,
}

/// What a block key stands for.
#[verifier::ext_equal]
pub struct BlockKeyView {
    pub model_id: Seq<char>,
    pub revision: Seq<char>,
    pub pool_kind: i32,
    pub flat: Seq<u8>,
}

impl View for BlockKey {
    type V = BlockKeyView;

    open spec fn view(&self) -> BlockKeyView {
        BlockKeyView {
            model_id: self.model_id@,
            revision: self.revision@,
            pool_kind: self.pool_kind,
            flat: self.flat@,
        }
    }
}

impl Dup for BlockKey {
    fn dup(&self) -> (copy: Self) {
        BlockKey {
            model_id: self.model_id.dup(),
            revision: self.revision.dup(),
            pool_kind: self.pool_kind,
            flat: self.flat.dup(),
        }
    }
}

impl Key for BlockKey {
    fn same(&self, other: &Self) -> (same: bool) {
        self.model_id.same(&other.model_id) && self.revision.same(&other.revision)
            && self.pool_kind == other.pool_kind && self.flat.same(&other.flat)
    }
}

impl BlockKeyView {
    /// The key of an address; a pool that is not named is the target pool.
    pub open spec fn of(id: KvBlockIdView) -> BlockKeyView {
        BlockKeyView {
            model_id: id.model_id,
            revision: id.revision,
            pool_kind: if id.pool_kind == 0 {
                PoolKind::Target.spec_number()
            } else {
                id.pool_kind
            },
            flat: id.block_hash,
        }
    }

    /// The address of a key.
    pub open spec fn id(self) -> KvBlockIdView {
        pool::id_or(None, self.model_id, self.revision, self.pool_kind, self.flat)
    }
}

impl BlockKey {
    /// The key of an address.
    pub fn from_id(id: &KvBlockId) -> (k: Self)
        ensures
            k@ == BlockKeyView::of(id@),
    {
        BlockKey {
            model_id: id.model_id.dup(),
            revision: id.revision.dup(),
            pool_kind: if id.pool_kind == 0 {
                PoolKind::Target.number()
            } else {
                id.pool_kind
            },
            flat: id.block_hash.dup(),
        }
    }

    /// The address of a key.
    pub fn to_id(&self) -> (id: KvBlockId)
        ensures
            id@ == self@.id(),
    {
        public_id(self.model_id.as_str(), self.revision.as_str(), self.pool_kind, &self.flat)
    }
}

impl Ranked for BlockKey {
    open spec fn ranks(a: BlockKeyView, b: BlockKeyView) -> bool {
        if (a.model_id, a.revision) != (b.model_id, b.revision) {
            NamespaceKey::ranks((a.model_id, a.revision), (b.model_id, b.revision))
        } else if a.pool_kind != b.pool_kind {
            a.pool_kind < b.pool_kind
        } else {
            Vec::<u8>::ranks(a.flat, b.flat)
        }
    }

    fn leq(&self, other: &Self) -> (le: bool) {
        if !self.model_id.same(&other.model_id) {
            text_leq(self.model_id.as_str(), other.model_id.as_str())
        } else if !self.revision.same(&other.revision) {
            text_leq(self.revision.as_str(), other.revision.as_str())
        } else if self.pool_kind != other.pool_kind {
            self.pool_kind < other.pool_kind
        } else {
            bytes_leq(self.flat.as_slice(), other.flat.as_slice())
        }
    }
}

impl Ordered for BlockKey {
    proof fn rank_total(a: BlockKeyView, b: BlockKeyView) {
        NamespaceKey::rank_total((a.model_id, a.revision), (b.model_id, b.revision));
        Vec::<u8>::rank_total(a.flat, b.flat);
    }

    proof fn rank_transitive(a: BlockKeyView, b: BlockKeyView, c: BlockKeyView) {
        let (x, y, z) = (
            (a.model_id, a.revision),
            (b.model_id, b.revision),
            (c.model_id, c.revision),
        );
        if x != y && y != z {
            NamespaceKey::rank_transitive(x, y, z);
            if x == z {
                NamespaceKey::rank_antisymmetric(x, y);
            }
        } else if x == y && y == z && a.pool_kind == b.pool_kind && b.pool_kind == c.pool_kind {
            Vec::<u8>::rank_transitive(a.flat, b.flat, c.flat);
        }
    }

    proof fn rank_antisymmetric(a: BlockKeyView, b: BlockKeyView) {
        if (a.model_id, a.revision) != (b.model_id, b.revision) {
            NamespaceKey::rank_antisymmetric((a.model_id, a.revision), (b.model_id, b.revision));
        } else if a.pool_kind == b.pool_kind {
            Vec::<u8>::rank_antisymmetric(a.flat, b.flat);
        }
    }
}

/// What a namespace stands for.
#[verifier::ext_equal]
pub struct NsView {
    pub descriptor: ModelDescriptorView,
    pub target: Option<PoolView>,
    pub draft: Option<PoolView>,
    pub cap: nat,
    pub used: i64,
}

/// The bytes that a block is charged; at least one.
pub open spec fn block_bytes(d: ModelDescriptorView) -> int {
    match d.block_spec {
        Some(s) => if 1 <= s.bytes_per_block <= i64::MAX {
            s.bytes_per_block as int
        } else {
            1
        },
        None => 1,
    }
}

/// What a pool gives up, and what is left of it.
pub open spec fn pool_evicted(p: Option<PoolView>, n: nat) -> (Option<PoolView>, Seq<Seq<u8>>) {
    match p {
        Some(p) => (Some(p.evicted(n).0), p.evicted(n).1),
        None => (None, Seq::empty()),
    }
}

/// Blocks of one pool.
pub open spec fn tagged(pool_kind: i32, flats: Seq<Seq<u8>>) -> Seq<(i32, Seq<u8>)> {
    flats.map_values(|f: Seq<u8>| (pool_kind, f))
}

impl NsView {
    /// A namespace without blocks.
    pub open spec fn fresh(descriptor: ModelDescriptorView, cap: nat) -> NsView {
        NsView { descriptor, target: None, draft: None, cap, used: 0 }
    }

    /// Its pools are sound, and the charge is never negative.
    pub open spec fn wf(self) -> bool {
        &&& self.target is Some ==> self.target->0.wf()
        &&& self.draft is Some ==> self.draft->0.wf()
        &&& self.used >= 0
        &&& self.cap >= 1
    }

    /// The pool of a kind.
    pub open spec fn pool(self, pool_kind: i32) -> Option<PoolView> {
        if pool_kind == PoolKind::Target.spec_number() {
            self.target
        } else if pool_kind == PoolKind::Draft.spec_number() {
            self.draft
        } else {
            None
        }
    }

    /// The pool of a kind, or a new one.
    pub open spec fn pool_or_new(self, pool_kind: i32) -> PoolView {
        match self.pool(pool_kind) {
            Some(p) => p,
            None => PoolView::fresh(self.cap),
        }
    }

    /// The namespace with a pool set.
    pub open spec fn with_pool(self, pool_kind: i32, p: PoolView) -> NsView {
        if pool_kind == PoolKind::Target.spec_number() {
            NsView { target: Some(p), ..self }
        } else if pool_kind == PoolKind::Draft.spec_number() {
            NsView { draft: Some(p), ..self }
        } else {
            self
        }
    }

    /// The limits.
    pub open spec fn quota(self) -> Quota {
        quota::effective(self.descriptor.quota)
    }

    /// The bytes that a block is charged.
    pub open spec fn block_bytes(self) -> int {
        block_bytes(self.descriptor)
    }

    /// Blocks that may make room.
    pub open spec fn inactive_len(self) -> nat {
        (match self.target {
            Some(p) => p.inactive.nodes.len(),
            None => 0,
        }) + (match self.draft {
            Some(p) => p.inactive.nodes.len(),
            None => 0,
        })
    }

    /// Bytes of the blocks that may make room.
    pub open spec fn inactive_bytes(self) -> int {
        quota::clamped(quota::clamped(self.inactive_len() as int) * self.block_bytes())
    }

    /// Blocks of both pools.
    pub open spec fn block_count(self) -> nat {
        (match self.target {
            Some(p) => p.by_flat.len(),
            None => 0,
        }) + (match self.draft {
            Some(p) => p.by_flat.len(),
            None => 0,
        })
    }

    /// The charge without `n` blocks; never below nothing.
    pub open spec fn credited(self, n: nat) -> NsView {
        NsView {
            used: if self.used - n * self.block_bytes() > 0 {
                (self.used - n * self.block_bytes()) as i64
            } else {
                0
            },
            ..self
        }
    }

    /// Up to `n` blocks make room, those of the target pool first.
    pub open spec fn evicted(self, n: nat) -> (NsView, Seq<(i32, Seq<u8>)>) {
        let (target, a) = pool_evicted(self.target, n);
        let left = if a.len() >= n {
            0nat
        } else {
            (n - a.len()) as nat
        };
        let (draft, b) = pool_evicted(self.draft, left);
        (
            NsView { target, draft, ..self }.credited(a.len() + b.len()),
            tagged(PoolKind::Target.spec_number(), a) + tagged(PoolKind::Draft.spec_number(), b),
        )
    }
}

/// The events of blocks that are gone.
pub open spec fn gone_events(
    model_id: Seq<char>,
    revision: Seq<char>,
    gone: Seq<(i32, Seq<u8>)>,
) -> Seq<ViewEventView> {
    gone.map_values(|g: (i32, Seq<u8>)| view::invalidated(pool::id_or(None, model_id, revision, g.0, g.1)))
}

/// The namespace as stored.
pub struct Namespace {
    pub descriptor: ModelDescriptor,
    pub target: Option<Pool>,
    pub draft: Option<Pool>,
    pub inactive_cap: usize,
    pub used_bytes: i64,
}

impl View for Namespace {
    type V = NsView;

    open spec fn view(&self) -> NsView {
        NsView {
            descriptor: self.descriptor@,
            target: keys::opt(self.target),
            draft: keys::opt(self.draft),
            cap: self.inactive_cap as nat,
            used: self.used_bytes,
        }
    }
}

fn evict_from(p: &mut Option<Pool>, n: u64) -> (gone: Vec<Vec<u8>>)
    requires
        *old(p) is Some ==> (*old(p))->0@.wf(),
    ensures
        keys::opt(*final(p)) == pool_evicted(keys::opt(*old(p)), n as nat).0,
        keys::views(gone@) == pool_evicted(keys::opt(*old(p)), n as nat).1,
        *final(p) is Some ==> (*final(p))->0@.wf(),
{
    match p.take() {
        Some(mut pool) => {
            let gone = pool.drop_inactive_victims(n);
            *p = Some(pool);
            gone
        },
        None => {
            let gone: Vec<Vec<u8>> = Vec::new();
            assert(keys::views(gone@) =~= Seq::empty());
            gone
        },
    }
}

impl Namespace {
    /// A namespace without blocks.
    pub fn new(descriptor: ModelDescriptor, inactive_cap: usize) -> (ns: Self)
        ensures
            ns@ == NsView::fresh(
                descriptor@,
                if inactive_cap == 0 {
                    1
                } else {
                    inactive_cap as nat
                },
            ),
            ns@.wf(),
    {
        Namespace {
            descriptor,
            target: None,
            draft: None,
            inactive_cap: if inactive_cap == 0 {
                1
            } else {
                inactive_cap
            },
            used_bytes: 0,
        }
    }

    /// The pool of a kind.
    pub fn pool(&self, pool_kind: i32) -> (p: Option<&Pool>)
        ensures
            match p {
                Some(p) => self@.pool(pool_kind) == Some(p@),
                None => self@.pool(pool_kind) is None,
            },
    {
        if pool_kind == PoolKind::Target.number() {
            match &self.target {
                Some(p) => Some(p),
                None => None,
            }
        } else if pool_kind == PoolKind::Draft.number() {
            match &self.draft {
                Some(p) => Some(p),
                None => None,
            }
        } else {
            None
        }
    }

    /// Takes the pool of a kind out.
    pub fn take_pool(&mut self, pool_kind: i32) -> (p: Option<Pool>)
        ensures
            match p {
                Some(p) => old(self)@.pool(pool_kind) == Some(p@),
                None => old(self)@.pool(pool_kind) is None && final(self)@ == old(self)@,
            },
            forall|q: PoolView| final(self)@.with_pool(pool_kind, q) == #[trigger] old(
                self,
            )@.with_pool(pool_kind, q),
            final(self)@.descriptor == old(self)@.descriptor,
            final(self)@.cap == old(self)@.cap,
            final(self)@.used == old(self)@.used,
            old(self)@.wf() ==> final(self)@.wf(),
    {
        if pool_kind == PoolKind::Target.number() {
            self.target.take()
        } else if pool_kind == PoolKind::Draft.number() {
            self.draft.take()
        } else {
            None
        }
    }

    /// Puts the pool of a kind in.
    pub fn put_pool(&mut self, pool_kind: i32, p: Pool)
        ensures
            final(self)@ == old(self)@.with_pool(pool_kind, p@),
            old(self)@.wf() && p@.wf() ==> final(self)@.wf(),
    {
        if pool_kind == PoolKind::Target.number() {
            self.target = Some(p);
        } else if pool_kind == PoolKind::Draft.number() {
            self.draft = Some(p);
        }
    }

    /// The limits.
    pub fn quota(&self) -> (q: Quota)
        ensures
            q == self@.quota(),
    {
        quota_or_default(self.descriptor.quota)
    }

    /// The bytes that a block is charged.
    pub fn bytes_per_block(&self) -> (n: i64)
        ensures
            n == self@.block_bytes(),
            n >= 1,
    {
        match self.descriptor.block_spec {
            Some(s) => if s.bytes_per_block >= 1 && s.bytes_per_block <= 9_223_372_036_854_775_807 {
                s.bytes_per_block as i64
            } else {
                1
            },
            None => 1,
        }
    }

    /// Blocks that may make room.
    pub fn inactive_len(&self) -> (n: i128)
        ensures
            n == self@.inactive_len(),
    {
        let a: usize = match &self.target {
            Some(p) => p.inactive.len(),
            None => 0,
        };
        let b: usize = match &self.draft {
            Some(p) => p.inactive.len(),
            None => 0,
        };
        a as i128 + b as i128
    }

    /// Bytes of the blocks that may make room.
    pub fn inactive_bytes(&self) -> (n: i64)
        ensures
            n == self@.inactive_bytes(),
            n >= 0,
    {
        let n: i64 = clamp(self.inactive_len());
        let b: i64 = self.bytes_per_block();
        assert(0 <= n * b <= 85070591730234615847396907784232501249) by (nonlinear_arith)
            requires
                0 <= n <= 9223372036854775807,
                1 <= b <= 9223372036854775807,
        ;
        clamp(n as i128 * b as i128)
    }

    /// Blocks of both pools.
    pub fn block_count(&self) -> (n: usize)
        requires
            self@.block_count() <= usize::MAX,
        ensures
            n == self@.block_count(),
    {
        let a: usize = match &self.target {
            Some(p) => p.by_flat.len(),
            None => 0,
        };
        let b: usize = match &self.draft {
            Some(p) => p.by_flat.len(),
            None => 0,
        };
        a + b
    }

    /// Takes the charge of `n` blocks back.
    pub fn credit(&mut self, n: u64)
        requires
            old(self)@.wf(),
        ensures
            final(self)@ == old(self)@.credited(n as nat),
            final(self)@.wf(),
    {
        let b: i64 = self.bytes_per_block();
        assert(0 <= n * b <= 170141183460469231722463931679029329921) by (nonlinear_arith)
            requires
                0 <= n <= 18446744073709551615,
                1 <= b <= 9223372036854775807,
        ;
        let rest: i128 = self.used_bytes as i128 - n as i128 * b as i128;
        self.used_bytes = if rest > 0 {
            rest as i64
        } else {
            0
        };
    }

    /// Lets up to `n` blocks make room, those of the target pool first.
    pub fn evict_inactive_n(&mut self, n: u64) -> (gone: Vec<(i32, Vec<u8>)>)
        requires
            old(self)@.wf(),
        ensures
            final(self)@ == old(self)@.evicted(n as nat).0,
            keys::views(gone@) == old(self)@.evicted(n as nat).1,
            final(self)@.wf(),
    {
        let a = evict_from(&mut self.target, n);
        let left: u64 = if a.len() as u64 >= n {
            0
        } else {
            n - a.len() as u64
        };
        let b = evict_from(&mut self.draft, left);
        let ghost ns = self@;
        let ghost (va, vb) = (keys::views(a@), keys::views(b@));
        self.credit(a.len() as u64);
        self.credit(b.len() as u64);
        proof {
            lemma_credit_twice(ns, va.len(), vb.len());
        }
        let mut gone: Vec<(i32, Vec<u8>)> = Vec::new();
        let mut i: usize = 0;
        while i < a.len()
            invariant
                i <= a@.len(),
                va == keys::views(a@),
                keys::views(gone@) == tagged(PoolKind::Target.spec_number(), va.take(i as int)),
            decreases a@.len() - i,
        {
            let ghost before = keys::views(gone@);
            let g = (PoolKind::Target.number(), a[i].dup());
            let ghost v = g@;
            gone.push(g);
            assert(keys::views(gone@) =~= before.push(v));
            assert(tagged(PoolKind::Target.spec_number(), va.take(i + 1)) =~= before.push(v));
            i += 1;
        }
        assert(va.take(i as int) =~= va);
        let ghost first = keys::views(gone@);
        let mut j: usize = 0;
        assert(first + tagged(PoolKind::Draft.spec_number(), vb.take(0)) =~= first);
        while j < b.len()
            invariant
                j <= b@.len(),
                vb == keys::views(b@),
                keys::views(gone@) == first + tagged(PoolKind::Draft.spec_number(), vb.take(j as int)),
            decreases b@.len() - j,
        {
            let ghost before = keys::views(gone@);
            let g = (PoolKind::Draft.number(), b[j].dup());
            let ghost v = g@;
            gone.push(g);
            assert(keys::views(gone@) =~= before.push(v));
            assert(first + tagged(PoolKind::Draft.spec_number(), vb.take(j + 1)) =~= before.push(v));
            j += 1;
        }
        assert(vb.take(j as int) =~= vb);
        gone
    }
}

proof fn lemma_credit_twice(ns: NsView, a: nat, b: nat)
    requires
        ns.wf(),
    ensures
        ns.credited(a).credited(b) == ns.credited(a + b),
{
    let c = ns.block_bytes();
    assert((a + b) * c == a * c + b * c) by (nonlinear_arith);
    assert(a * c >= 0 && b * c >= 0) by (nonlinear_arith)
        requires
            c >= 1,
    ;
}

/// Tells of blocks that are gone.
pub fn invalidated_events_for(model_id: &str, revision: &str, gone: &Vec<(i32, Vec<u8>)>) -> (r: Vec<
    ViewEvent,
>)
    ensures
        keys::views(r@) == gone_events(model_id@, revision@, keys::views(gone@)),
{
    let mut r: Vec<ViewEvent> = Vec::with_capacity(gone.len());
    let mut i: usize = 0;
    while i < gone.len()
        invariant
            i <= gone@.len(),
            r@.len() == i,
            forall|j: int|
                0 <= j < i ==> (#[trigger] r@[j])@ == gone_events(
                    model_id@,
                    revision@,
                    keys::views(gone@),
                )[j],
        decreases gone@.len() - i,
    {
        r.push(invalidated_event(public_id(model_id, revision, gone[i].0, &gone[i].1)));
        i += 1;
    }
    assert(keys::views(r@) =~= gone_events(model_id@, revision@, keys::views(gone@)));
    r
}

} // verus!
