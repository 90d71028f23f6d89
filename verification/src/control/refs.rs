//! References to blocks, by kind and by node. A change that would make a count
//! negative is refused, and so is the whole batch that holds it.

use vstd::prelude::*;
use vstd::string::*;

use crate::base::keys;
use crate::base::keys::{Dup, Key};
use crate::base::table::Table;
use crate::base::text;
use crate::base::text::{decimal_text, joined, ns_text, signed_text, text};
use crate::control::authority::{Authority, AuthorityView};
use crate::control::hash_chain::SequenceHash;
use crate::control::namespace::{BlockKey, BlockKeyView, NamespaceKey};
use crate::control::pool;
use crate::control::pool::{ref_kind_text, resolve_pool_kind, resolve_ref_kind, RefAccounts};
use crate::proto::{KvBlockIdView, RefDelta, RefDeltaView, RefKind};

verus! {

/// What a change of references is about.
pub struct RefTarget {
    pub key: NamespaceKey,
    pub pool_kind: i32,
    pub seq: SequenceHash,
}

/// What a target stands for.
#[verifier::ext_equal]
pub struct RefTargetView {
    pub key: (Seq<char>, Seq<char>),
    pub pool_kind: i32,
    pub seq: SequenceHash,
}

impl View for RefTarget {
    type V = RefTargetView;

    open spec fn view(&self) -> RefTargetView {
        RefTargetView { key: self.key@, pool_kind: self.pool_kind, seq: self.seq }
    }
}

impl Dup for RefTarget {
    fn dup(&self) -> (copy: Self) {
        RefTarget { key: self.key.dup(), pool_kind: self.pool_kind, seq: self.seq }
    }
}

impl Key for RefTarget {
    fn same(&self, other: &Self) -> (same: bool) {
        self.key.same(&other.key) && self.pool_kind == other.pool_kind && self.seq == other.seq
    }
}

/// A block as one node holds it.
pub struct NodeBlock {
    pub node_id: String,
    pub block: BlockKey,
}

impl View for NodeBlock {
    type V = (Seq<char>, BlockKeyView);

    open spec fn view(&self) -> (Seq<char>, BlockKeyView) {
        (self.node_id@, self.block@)
    }
}

impl Dup for NodeBlock {
    fn dup(&self) -> (copy: Self) {
        NodeBlock { node_id: self.node_id.dup(), block: self.block.dup() }
    }
}

impl Key for NodeBlock {
    fn same(&self, other: &Self) -> (same: bool) {
        self.node_id.same(&other.node_id) && self.block.same(&other.block)
    }
}

/// The accounts after a change of one kind, or why it is refused.
pub open spec fn bumped(a: RefAccounts, kind: RefKind, delta: int, what: Seq<char>) -> Result<
    RefAccounts,
    Seq<char>,
> {
    if a.of(kind) + delta > i64::MAX {
        Err(what + " overflow (kind="@ + pool::ref_kind_name(kind) + ")"@)
    } else if a.of(kind) + delta < 0 {
        Err(what + " underflow (kind="@ + pool::ref_kind_name(kind) + ")"@)
    } else {
        Ok(a.with(kind, (a.of(kind) + delta) as i64))
    }
}

/// A node's holdings with one set; none where nothing is held.
pub open spec fn held_with(
    held: Map<BlockKeyView, RefAccounts>,
    b: BlockKeyView,
    a: RefAccounts,
) -> Map<BlockKeyView, RefAccounts> {
    if a == RefAccounts::none() {
        held.remove(b)
    } else {
        held.insert(b, a)
    }
}

impl AuthorityView {
    /// The block that a change is about, or why there is none.
    pub open spec fn ref_target(self, id: Option<KvBlockIdView>) -> Result<
        RefTargetView,
        Seq<char>,
    > {
        match id {
            None => Err("RefDelta missing id"@),
            Some(id) => {
                let k = (id.model_id, id.revision);
                match pool::pool_kind_of(id.pool_kind) {
                    Err(e) => Err(e),
                    Ok(pk) => if !self.spaces.contains_key(k) {
                        Err("unknown namespace "@ + text::ns_named(k.0, k.1))
                    } else if self.spaces[k].pool(pk) is None {
                        Err("RefDelta: unknown pool_kind "@ + text::signed(pk as int))
                    } else if !self.spaces[k].pool(pk)->0.by_flat.contains_key(id.block_hash) {
                        Err("RefDelta: unknown block_hash"@)
                    } else {
                        Ok(
                            RefTargetView {
                                key: k,
                                pool_kind: pk,
                                seq: self.spaces[k].pool(pk)->0.by_flat[id.block_hash].seq,
                            },
                        )
                    },
                }
            },
        }
    }

    /// What a node holds of a block.
    pub open spec fn node_accounts(self, node_id: Seq<char>, b: BlockKeyView) -> RefAccounts {
        if self.node_refs.contains_key(node_id) && self.node_refs[node_id].contains_key(b) {
            self.node_refs[node_id][b]
        } else {
            RefAccounts::none()
        }
    }

    /// What a node holds of a block is set.
    pub open spec fn node_set(
        self,
        node_id: Seq<char>,
        b: BlockKeyView,
        a: RefAccounts,
    ) -> AuthorityView {
        let held = if self.node_refs.contains_key(node_id) {
            self.node_refs[node_id]
        } else {
            Map::empty()
        };
        AuthorityView {
            node_refs: self.node_refs.insert(node_id, held_with(held, b, a)),
            ..self
        }
    }

    /// The references to a block are set.
    pub open spec fn refs_set(self, t: RefTargetView, flat: Seq<u8>, a: RefAccounts) -> AuthorityView {
        let p = self.spaces[t.key].pool(t.pool_kind)->0;
        self.with_pool_at(
            t.key,
            t.pool_kind,
            p.accounted(t.seq, p.by_flat[flat].block_id, a),
        )
    }

    /// The references to a target.
    pub open spec fn accounts_at(self, t: RefTargetView) -> RefAccounts {
        match self.pool_at(t.key, t.pool_kind) {
            Some(p) => p.accounts_of(t.seq),
            None => RefAccounts::none(),
        }
    }

    /// References of one kind come or go; a node's share is kept where one is
    /// named.
    pub open spec fn ref_moved(
        self,
        id: Option<KvBlockIdView>,
        kind: i32,
        delta: int,
        node_id: Seq<char>,
    ) -> Result<AuthorityView, Seq<char>> {
        match self.ref_target(id) {
            Err(e) => Err(e),
            Ok(t) => match pool::ref_kind_of(kind) {
                Err(e) => Err(e),
                Ok(kind) => match bumped(self.accounts_at(t), kind, delta, "ref_count"@) {
                    Err(e) => Err(e),
                    Ok(next) => {
                        let a = self.refs_set(t, id->0.block_hash, next);
                        if node_id.len() == 0 || delta == 0 {
                            Ok(a)
                        } else {
                            let b = BlockKeyView::of(id->0);
                            match bumped(
                                self.node_accounts(node_id, b),
                                kind,
                                delta,
                                "node_ref"@,
                            ) {
                                Err(e) => Err(e),
                                Ok(held) => Ok(a.node_set(node_id, b, held)),
                            }
                        }
                    },
                },
            },
        }
    }

    /// One change is applied, or refused.
    pub open spec fn ref_reported(self, d: RefDeltaView) -> Result<AuthorityView, Seq<char>> {
        self.ref_moved(d.id, d.kind, d.delta as int, d.node_id)
    }

    /// A batch of changes is applied, or refused at the first that is.
    pub open spec fn refs_reported(self, ds: Seq<RefDeltaView>) -> Result<AuthorityView, Seq<char>>
        decreases ds.len(),
    {
        if ds.len() == 0 {
            Ok(self)
        } else {
            match self.refs_reported(ds.drop_last()) {
                Err(e) => Err(e),
                Ok(a) => match a.ref_reported(ds.last()) {
                    Ok(b) => Ok(b),
                    Err(e) => Err(
                        "ReportRef batch["@ + text::decimal((ds.len() - 1) as nat) + "]: "@ + e,
                    ),
                },
            }
        }
    }
}

/// The accounts after a change of one kind, or why it is refused.
fn bump(a: &RefAccounts, kind: RefKind, delta: i64, what: &str) -> (r: Result<RefAccounts, String>)
    requires
        a.wf(),
    ensures
        keys::told(r) == bumped(*a, kind, delta as int, what@),
        r matches Ok(n) ==> n.wf(),
{
    let next: i128 = a.bucket(kind) as i128 + delta as i128;
    if next > 9_223_372_036_854_775_807 {
        let mut e = joined(what, " overflow (kind=");
        e.append(ref_kind_text(kind));
        e.append(")");
        return Err(e);
    }
    if next < 0 {
        let mut e = joined(what, " underflow (kind=");
        e.append(ref_kind_text(kind));
        e.append(")");
        return Err(e);
    }
    Ok(a.set(kind, next as i64))
}

/// A projected value, or the one that stands.
spec fn or_else<K, V>(m: Map<K, V>, k: K, v: V) -> V {
    if m.contains_key(k) {
        m[k]
    } else {
        v
    }
}

/// Both have the same blocks.
spec fn same_blocks(a: AuthorityView, b: AuthorityView) -> bool {
    &&& a.spaces.dom() == b.spaces.dom()
    &&& forall|k: (Seq<char>, Seq<char>), pk: i32|
        (#[trigger] a.pool_at(k, pk)) is Some == b.pool_at(k, pk) is Some
    &&& forall|k: (Seq<char>, Seq<char>), pk: i32|
        (#[trigger] a.pool_at(k, pk)) is Some ==> a.pool_at(k, pk)->0.by_flat == b.pool_at(
            k,
            pk,
        )->0.by_flat
}

proof fn lemma_same_target(a: AuthorityView, b: AuthorityView, id: Option<KvBlockIdView>)
    requires
        same_blocks(a, b),
    ensures
        a.ref_target(id) == b.ref_target(id),
{
    if id is Some && pool::pool_kind_of(id->0.pool_kind) is Ok {
        let k = (id->0.model_id, id->0.revision);
        let pk = pool::pool_kind_of(id->0.pool_kind)->Ok_0;
        assert(a.spaces.dom().contains(k) == b.spaces.dom().contains(k));
        assert(a.pool_at(k, pk) is Some == b.pool_at(k, pk) is Some);
    }
}

/// What a projection knows of a state that is ahead of the stored one.
spec fn projects(
    ahead: AuthorityView,
    stored: AuthorityView,
    refs: Map<RefTargetView, RefAccounts>,
    nodes: Map<(Seq<char>, BlockKeyView), RefAccounts>,
) -> bool {
    &&& same_blocks(ahead, stored)
    &&& forall|t: RefTargetView| #[trigger]
        ahead.accounts_at(t) == or_else(refs, t, stored.accounts_at(t))
    &&& forall|n: Seq<char>, b: BlockKeyView| #[trigger]
        ahead.node_accounts(n, b) == or_else(nodes, (n, b), stored.node_accounts(n, b))
}

proof fn lemma_refs_set(a: AuthorityView, t: RefTargetView, flat: Seq<u8>, next: RefAccounts)
    requires
        a.pool_at(t.key, t.pool_kind) is Some,
    ensures
        same_blocks(a.refs_set(t, flat, next), a),
        a.refs_set(t, flat, next).node_refs == a.node_refs,
        forall|u: RefTargetView| #[trigger]
            a.refs_set(t, flat, next).accounts_at(u) == if u == t {
                next
            } else {
                a.accounts_at(u)
            },
{
    let b = a.refs_set(t, flat, next);
    assert(b.spaces.dom() =~= a.spaces.dom());
    assert forall|k: (Seq<char>, Seq<char>), pk: i32|
        (#[trigger] b.pool_at(k, pk)) is Some == a.pool_at(k, pk) is Some && (b.pool_at(
            k,
            pk,
        ) is Some ==> b.pool_at(k, pk)->0.by_flat == a.pool_at(k, pk)->0.by_flat) by {}
    assert forall|u: RefTargetView| #[trigger]
        b.accounts_at(u) == if u == t {
            next
        } else {
            a.accounts_at(u)
        } by {}
}

proof fn lemma_projected(
    ahead: AuthorityView,
    stored: AuthorityView,
    refs: Map<RefTargetView, RefAccounts>,
    nodes: Map<(Seq<char>, BlockKeyView), RefAccounts>,
    d: RefDeltaView,
    next: RefAccounts,
    held: RefAccounts,
)
    requires
        projects(ahead, stored, refs, nodes),
        ahead.ref_reported(d) is Ok,
        bumped(
            ahead.accounts_at(ahead.ref_target(d.id)->Ok_0),
            pool::ref_kind_of(d.kind)->Ok_0,
            d.delta as int,
            "ref_count"@,
        ) == Ok::<RefAccounts, Seq<char>>(next),
        d.node_id.len() > 0 && d.delta != 0 ==> bumped(
            ahead.node_accounts(d.node_id, BlockKeyView::of(d.id->0)),
            pool::ref_kind_of(d.kind)->Ok_0,
            d.delta as int,
            "node_ref"@,
        ) == Ok::<RefAccounts, Seq<char>>(held),
    ensures
        projects(
            ahead.ref_reported(d)->Ok_0,
            stored,
            refs.insert(stored.ref_target(d.id)->Ok_0, next),
            if d.node_id.len() > 0 && d.delta != 0 {
                nodes.insert((d.node_id, BlockKeyView::of(d.id->0)), held)
            } else {
                nodes
            },
        ),
{
    let t = ahead.ref_target(d.id)->Ok_0;
    lemma_same_target(ahead, stored, d.id);
    let a = ahead.refs_set(t, d.id->0.block_hash, next);
    lemma_refs_set(ahead, t, d.id->0.block_hash, next);
    let c = ahead.ref_reported(d)->Ok_0;
    assert(same_blocks(a, stored)) by {
        assert forall|k: (Seq<char>, Seq<char>), pk: i32|
            (#[trigger] a.pool_at(k, pk)) is Some == stored.pool_at(k, pk) is Some && (a.pool_at(
                k,
                pk,
            ) is Some ==> a.pool_at(k, pk)->0.by_flat == stored.pool_at(k, pk)->0.by_flat) by {
            assert(ahead.pool_at(k, pk) is Some == stored.pool_at(k, pk) is Some);
        }
    }
    let b = BlockKeyView::of(d.id->0);
    if d.node_id.len() > 0 && d.delta != 0 {
        assert(c == a.node_set(d.node_id, b, held));
        assert(c.spaces == a.spaces);
        assert forall|k: (Seq<char>, Seq<char>), pk: i32| #[trigger]
            c.pool_at(k, pk) == a.pool_at(k, pk) by {}
        assert forall|u: RefTargetView| #[trigger] c.accounts_at(u) == a.accounts_at(u) by {}
        assert forall|n: Seq<char>, x: BlockKeyView| #[trigger]
            c.node_accounts(n, x) == or_else(
                nodes.insert((d.node_id, b), held),
                (n, x),
                stored.node_accounts(n, x),
            ) by {
            assert(ahead.node_accounts(n, x) == or_else(nodes, (n, x), stored.node_accounts(n, x)));
        }
    } else {
        assert(c == a);
        assert forall|n: Seq<char>, x: BlockKeyView| #[trigger]
            c.node_accounts(n, x) == or_else(nodes, (n, x), stored.node_accounts(n, x)) by {
            assert(ahead.node_accounts(n, x) == or_else(nodes, (n, x), stored.node_accounts(n, x)));
        }
    }
    assert forall|u: RefTargetView| #[trigger]
        c.accounts_at(u) == or_else(refs.insert(t, next), u, stored.accounts_at(u)) by {
        assert(a.accounts_at(u) == if u == t {
            next
        } else {
            ahead.accounts_at(u)
        });
        assert(ahead.accounts_at(u) == or_else(refs, u, stored.accounts_at(u)));
    }
}

proof fn lemma_batch_prefix(a: AuthorityView, ds: Seq<RefDeltaView>, n: int)
    requires
        0 <= n <= ds.len(),
    ensures
        a.refs_reported(ds.take(n)) is Err ==> a.refs_reported(ds) == a.refs_reported(ds.take(n)),
    decreases ds.len(),
{
    if n == ds.len() {
        assert(ds.take(n) =~= ds);
    } else {
        assert(ds.drop_last().take(n) =~= ds.take(n));
        lemma_batch_prefix(a, ds.drop_last(), n);
    }
}

impl Authority {
    /// The references to a target.
    pub(crate) fn target_accounts(&self, t: &RefTarget) -> (a: RefAccounts)
        requires
            self.wf(),
        ensures
            a == self@.accounts_at(t@),
            a.wf(),
    {
        match self.namespaces.get(&t.key) {
            Some(ns) => {
                assert(self@.spaces.contains_key(t@.key) && ns@.wf());
                match ns.pool(t.pool_kind) {
                    Some(p) => p.accounts(&t.seq),
                    None => RefAccounts { request: 0, writeback: 0 },
                }
            },
            None => RefAccounts { request: 0, writeback: 0 },
        }
    }

    /// What a node holds of a block.
    fn node_held(&self, node_id: &String, b: &BlockKey) -> (a: RefAccounts)
        requires
            self.wf(),
        ensures
            a == self@.node_accounts(node_id@, b@),
            a.wf(),
    {
        match self.node_refs.get(node_id) {
            Some(held) => match held.get(b) {
                Some(a) => *a,
                None => RefAccounts { request: 0, writeback: 0 },
            },
            None => RefAccounts { request: 0, writeback: 0 },
        }
    }

    /// The block that a change is about.
    pub(crate) fn ref_target(&self, delta: &RefDelta) -> (r: Result<RefTarget, String>)
        ensures
            match r {
                Ok(t) => self@.ref_target(delta@.id) == Ok::<RefTargetView, Seq<char>>(t@),
                Err(e) => self@.ref_target(delta@.id) == Err::<RefTargetView, Seq<char>>(e@),
            },
    {
        let id = match &delta.id {
            Some(id) => id,
            None => return Err(text("RefDelta missing id")),
        };
        let pk: i32 = match resolve_pool_kind(id.pool_kind) {
            Ok(pk) => pk,
            Err(e) => return Err(e),
        };
        let key = NamespaceKey::from_id(id);
        match self.namespaces.get(&key) {
            None => Err(
                joined(
                    "unknown namespace ",
                    ns_text(id.model_id.as_str(), id.revision.as_str()).as_str(),
                ),
            ),
            Some(ns) => match ns.pool(pk) {
                None => Err(
                    joined("RefDelta: unknown pool_kind ", signed_text(pk as i64).as_str()),
                ),
                Some(pool) => match pool.by_flat.get(&id.block_hash) {
                    None => Err(text("RefDelta: unknown block_hash")),
                    Some(e) => Ok(RefTarget { key, pool_kind: pk, seq: e.seq_hash }),
                },
            },
        }
    }

    /// Tells whether the block of a change is known.
    pub fn check_report_ref(&self, delta: &RefDelta) -> (r: Result<(), String>)
        ensures
            keys::told(r) == match self@.ref_target(delta@.id) {
                Ok(_) => Ok::<(), Seq<char>>(()),
                Err(e) => Err::<(), Seq<char>>(e),
            },
    {
        match self.ref_target(delta) {
            Ok(_) => Ok(()),
            Err(e) => Err(e),
        }
    }

    fn set_refs(&mut self, t: &RefTarget, flat: &Vec<u8>, next: RefAccounts)
        requires
            old(self).wf(),
            next.wf(),
            old(self)@.spaces.contains_key(t@.key),
            old(self)@.spaces[t@.key].pool(t@.pool_kind) is Some,
            old(self)@.spaces[t@.key].pool(t@.pool_kind)->0.by_flat.contains_key(flat@),
        ensures
            final(self)@ == old(self)@.refs_set(t@, flat@, next),
            final(self).wf(),
    {
        match self.take_pool(&t.key, t.pool_kind) {
            None => {},
            Some(mut pool) => {
                let ghost p = pool@;
                if let Some(e) = pool.by_flat.get(flat) {
                    let id: u64 = e.block_id;
                    pool.account(t.seq, id, next);
                }
                self.put_pool(&t.key, t.pool_kind, pool);
            },
        }
    }

    fn set_node_refs(&mut self, node_id: &String, b: BlockKey, a: RefAccounts)
        requires
            old(self).wf(),
            a.wf(),
        ensures
            final(self)@ == old(self)@.node_set(node_id@, b@, a),
            final(self).wf(),
    {
        let mut held = match self.node_refs.remove(node_id) {
            Some(h) => h,
            None => Table::new(),
        };
        let ghost was = held@;
        if a.request == 0 && a.writeback == 0 {
            held.remove(&b);
        } else {
            held.insert(b, a);
        }
        assert(held@ == held_with(was, b@, a));
        let ghost now = held@;
        self.node_refs.insert(node_id.dup(), held);
        assert(self@ =~= old(self)@.node_set(node_id@, b@, a));
        assert(self@.wf()) by {
            assert forall|n: Seq<char>, x: BlockKeyView|
                self@.node_refs.contains_key(n)
                    && #[trigger] self@.node_refs[n].contains_key(x) implies self@.node_refs[n][x].wf() by {
                if n == node_id@ {
                    if x != b@ {
                        assert(was.contains_key(x));
                        assert(old(self)@.node_refs[n].contains_key(x));
                    }
                } else {
                    assert(old(self)@.node_refs[n].contains_key(x));
                }
            }
        }
    }

    /// Has references of one kind come or go; keeps the share of a node where one
    /// is named.
    pub(crate) fn report_ref_raw(&mut self, d: &RefDelta, amount: i64) -> (r: Result<(), String>)
        requires
            old(self).wf(),
        ensures
            ({
                let m = old(self)@.ref_moved(d@.id, d@.kind, amount as int, d@.node_id);
                match r {
                    Ok(_) => m == Ok::<AuthorityView, Seq<char>>(final(self)@),
                    Err(e) => m == Err::<AuthorityView, Seq<char>>(e@) && final(self)@ == old(
                        self,
                    )@,
                }
            }),
            final(self).wf(),
    {
        let t = match self.ref_target(d) {
            Ok(t) => t,
            Err(e) => return Err(e),
        };
        let kind = match resolve_ref_kind(d.kind) {
            Ok(kind) => kind,
            Err(e) => return Err(e),
        };
        let next = match bump(&self.target_accounts(&t), kind, amount, "ref_count") {
            Ok(next) => next,
            Err(e) => return Err(e),
        };
        if let Some(id) = &d.id {
            if d.node_id.as_str().is_empty() || amount == 0 {
                self.set_refs(&t, &id.block_hash, next);
            } else {
                let b = BlockKey::from_id(id);
                let held = match bump(&self.node_held(&d.node_id, &b), kind, amount, "node_ref") {
                    Ok(held) => held,
                    Err(e) => return Err(e),
                };
                self.set_refs(&t, &id.block_hash, next);
                self.set_node_refs(&d.node_id, b, held);
            }
        }
        Ok(())
    }

    /// Applies one change of references, or refuses it.
    pub fn report_ref(&mut self, delta: &RefDelta) -> (r: Result<(), String>)
        requires
            old(self).wf(),
        ensures
            match r {
                Ok(_) => old(self)@.ref_reported(delta@) == Ok::<AuthorityView, Seq<char>>(
                    final(self)@,
                ),
                Err(e) => old(self)@.ref_reported(delta@) == Err::<AuthorityView, Seq<char>>(e@)
                    && final(self)@ == old(self)@,
            },
            final(self).wf(),
    {
        self.report_ref_raw(delta, delta.delta as i64)
    }

    /// Holds a batch against what it would leave, without applying it.
    fn check_refs(&self, deltas: &[RefDelta]) -> (r: Result<(), String>)
        requires
            self.wf(),
        ensures
            match r {
                Ok(_) => self@.refs_reported(keys::views(deltas@)) is Ok,
                Err(e) => self@.refs_reported(keys::views(deltas@)) == Err::<AuthorityView, Seq<char>>(
                    e@,
                ),
            },
    {
        let ghost all = keys::views(deltas@);
        let ghost stored = self@;
        let mut refs: Table<RefTarget, RefAccounts> = Table::new();
        let mut nodes: Table<NodeBlock, RefAccounts> = Table::new();
        let ghost mut ahead = self@;
        let mut i: usize = 0;
        assert(all.take(0) =~= Seq::empty());
        while i < deltas.len()
            invariant
                i <= deltas@.len() == all.len(),
                all == keys::views(deltas@),
                self.wf(),
                stored == self@,
                stored.refs_reported(all.take(i as int)) == Ok::<AuthorityView, Seq<char>>(ahead),
                projects(ahead, stored, refs@, nodes@),
                forall|t: RefTargetView| #[trigger] refs@.contains_key(t) ==> refs@[t].wf(),
                forall|x: (Seq<char>, BlockKeyView)| #[trigger]
                    nodes@.contains_key(x) ==> nodes@[x].wf(),
            decreases deltas@.len() - i,
        {
            let d = &deltas[i];
            proof {
                assert(all.take(i + 1).drop_last() =~= all.take(i as int));
                assert(all[i as int] == d@);
                lemma_same_target(ahead, stored, d@.id);
                lemma_batch_prefix(stored, all, i + 1);
            }
            let step = self.project_one(d, &refs, &nodes, Ghost(ahead));
            match step {
                Err(e) => {
                    let mut m = joined("ReportRef batch[", decimal_text(i as u64).as_str());
                    m.append("]: ");
                    m.append(e.as_str());
                    return Err(m);
                },
                Ok((t, next, held)) => {
                    proof {
                        lemma_projected(
                            ahead,
                            stored,
                            refs@,
                            nodes@,
                            d@,
                            next,
                            match held {
                                Some((_, a)) => a,
                                None => RefAccounts::none(),
                            },
                        );
                        ahead = ahead.ref_reported(d@)->Ok_0;
                    }
                    refs.insert(t, next);
                    if let Some((nb, a)) = held {
                        nodes.insert(nb, a);
                    }
                },
            }
            i += 1;
        }
        assert(all.take(i as int) =~= all);
        Ok(())
    }

    /// What one change leaves, given what is projected so far.
    fn project_one(
        &self,
        d: &RefDelta,
        refs: &Table<RefTarget, RefAccounts>,
        nodes: &Table<NodeBlock, RefAccounts>,
        Ghost(ahead): Ghost<AuthorityView>,
    ) -> (r: Result<(RefTarget, RefAccounts, Option<(NodeBlock, RefAccounts)>), String>)
        requires
            self.wf(),
            projects(ahead, self@, refs@, nodes@),
            forall|t: RefTargetView| #[trigger] refs@.contains_key(t) ==> refs@[t].wf(),
            forall|x: (Seq<char>, BlockKeyView)| #[trigger]
                nodes@.contains_key(x) ==> nodes@[x].wf(),
        ensures
            match r {
                Err(e) => ahead.ref_reported(d@) == Err::<AuthorityView, Seq<char>>(e@),
                Ok((t, next, held)) => {
                    &&& ahead.ref_reported(d@) is Ok
                    &&& self@.ref_target(d@.id) == Ok::<RefTargetView, Seq<char>>(t@)
                    &&& next.wf()
                    &&& bumped(
                        ahead.accounts_at(t@),
                        pool::ref_kind_of(d@.kind)->Ok_0,
                        d@.delta as int,
                        "ref_count"@,
                    ) == Ok::<RefAccounts, Seq<char>>(next)
                    &&& (held is Some) == (d@.node_id.len() > 0 && d@.delta != 0)
                    &&& held matches Some((nb, a)) ==> {
                        &&& nb@ == (d@.node_id, BlockKeyView::of(d@.id->0))
                        &&& a.wf()
                        &&& bumped(
                            ahead.node_accounts(d@.node_id, BlockKeyView::of(d@.id->0)),
                            pool::ref_kind_of(d@.kind)->Ok_0,
                            d@.delta as int,
                            "node_ref"@,
                        ) == Ok::<RefAccounts, Seq<char>>(a)
                    }
                },
            },
    {
        proof {
            lemma_same_target(ahead, self@, d@.id);
        }
        let t = match self.ref_target(d) {
            Ok(t) => t,
            Err(e) => return Err(e),
        };
        let kind = match resolve_ref_kind(d.kind) {
            Ok(kind) => kind,
            Err(e) => return Err(e),
        };
        let now = match refs.get(&t) {
            Some(a) => *a,
            None => self.target_accounts(&t),
        };
        assert(now == ahead.accounts_at(t@));
        let next = match bump(&now, kind, d.delta as i64, "ref_count") {
            Ok(next) => next,
            Err(e) => return Err(e),
        };
        if let Some(id) = &d.id {
            if !d.node_id.as_str().is_empty() && d.delta != 0 {
                let nb = NodeBlock { node_id: d.node_id.dup(), block: BlockKey::from_id(id) };
                let now = match nodes.get(&nb) {
                    Some(a) => *a,
                    None => self.node_held(&nb.node_id, &nb.block),
                };
                assert(now == ahead.node_accounts(nb@.0, nb@.1));
                return match bump(&now, kind, d.delta as i64, "node_ref") {
                    Ok(a) => Ok((t, next, Some((nb, a)))),
                    Err(e) => Err(e),
                };
            }
        }
        Ok((t, next, None))
    }

    /// Applies a batch of changes, or refuses all of it.
    pub fn report_refs(&mut self, deltas: &[RefDelta]) -> (r: Result<(), String>)
        requires
            old(self).wf(),
        ensures
            match r {
                Ok(_) => old(self)@.refs_reported(keys::views(deltas@)) == Ok::<
                    AuthorityView,
                    Seq<char>,
                >(final(self)@),
                Err(e) => old(self)@.refs_reported(keys::views(deltas@)) == Err::<
                    AuthorityView,
                    Seq<char>,
                >(e@) && final(self)@ == old(self)@,
            },
            final(self).wf(),
    {
        if let Err(e) = self.check_refs(deltas) {
            return Err(e);
        }
        let ghost all = keys::views(deltas@);
        let ghost start = self@;
        let mut i: usize = 0;
        assert(all.take(0) =~= Seq::empty());
        while i < deltas.len()
            invariant
                i <= deltas@.len() == all.len(),
                all == keys::views(deltas@),
                self.wf(),
                start.refs_reported(all) is Ok,
                start.refs_reported(all.take(i as int)) == Ok::<AuthorityView, Seq<char>>(self@),
            decreases deltas@.len() - i,
        {
            proof {
                assert(all.take(i + 1).drop_last() =~= all.take(i as int));
                assert(all[i as int] == deltas@[i as int]@);
                lemma_batch_prefix(start, all, i + 1);
            }
            let r = self.report_ref(&deltas[i]);
            assert(r is Ok);
            i += 1;
        }
        assert(all.take(i as int) =~= all);
        Ok(())
    }
}

} // verus!
