//! Whether a write is let in: what a namespace is charged for, which of its own
//! blocks make room, and what is reclaimed from namespaces that borrow. A plan is
//! made first, and a refusal changes nothing.

use vstd::prelude::*;

use crate::base::keys;
use crate::base::keys::{Dup, Key};
use crate::base::listing;
use crate::base::listing::sorted_keys;
use crate::base::set::KeySet;
use crate::base::text;
use crate::base::text::{joined, ns_text};
use crate::control::authority::{Authority, AuthorityView, Spaces};
use crate::control::namespace;
use crate::control::namespace::{invalidated_events_for, Namespace, NamespaceKey, NsView};
use crate::control::pool;
use crate::control::pool::{resolve_pool_kind, Pool, PoolView};
use crate::control::quota;
use crate::control::quota::{borrowed_bytes, clamp, classify_write, AdmitWrite};
use crate::proto::{BackpressureSignal, BackpressureSignalView, Quota};

verus! {

/// What became of a write.
#[derive(Debug, Clone, PartialEq)]
pub enum RegisterStatus {
    Accepted,
    /// The write was refused for want of room.
    RejectedHardQuota(BackpressureSignal),
}

/// What a status stands for.
#[verifier::ext_equal]
pub enum RegisterStatusView {
    Accepted,
    RejectedHardQuota(BackpressureSignalView),
}

impl View for RegisterStatus {
    type V = RegisterStatusView;

    open spec fn view(&self) -> RegisterStatusView {
        match *self {
            RegisterStatus::Accepted => RegisterStatusView::Accepted,
            RegisterStatus::RejectedHardQuota(s) => RegisterStatusView::RejectedHardQuota(s@),
        }
    }
}

/// How room is made for a write, or why it is refused.
pub enum AdmitPlan {
    Accept { own_evict_n: u64, reclaim_bytes: i64 },
    Reject(BackpressureSignal),
}

/// What a plan stands for.
#[verifier::ext_equal]
pub enum AdmitPlanView {
    Accept { own: nat, reclaim: int },
    Reject(BackpressureSignalView),
}

impl View for AdmitPlan {
    type V = AdmitPlanView;

    open spec fn view(&self) -> AdmitPlanView {
        match *self {
            AdmitPlan::Accept { own_evict_n, reclaim_bytes } => AdmitPlanView::Accept {
                own: own_evict_n as nat,
                reclaim: reclaim_bytes as int,
            },
            AdmitPlan::Reject(s) => AdmitPlanView::Reject(s@),
        }
    }
}

impl AdmitPlanView {
    /// What becomes of the write.
    pub open spec fn status(self) -> RegisterStatusView {
        match self {
            AdmitPlanView::Accept { .. } => RegisterStatusView::Accepted,
            AdmitPlanView::Reject(s) => RegisterStatusView::RejectedHardQuota(s),
        }
    }
}

impl AdmitPlan {
    /// What becomes of the write.
    pub fn status(&self) -> (s: RegisterStatus)
        ensures
            s@ == self@.status(),
    {
        match self {
            AdmitPlan::Accept { .. } => RegisterStatus::Accepted,
            AdmitPlan::Reject(s) => RegisterStatus::RejectedHardQuota(s.dup()),
        }
    }
}

/// By how much a number is above a limit; zero without a limit.
pub open spec fn over(limit: i64, n: int) -> int {
    if limit > 0 && n > limit {
        n - limit
    } else {
        0
    }
}

/// How many blocks hold so many bytes.
pub open spec fn blocks_for(bytes: int, per_block: int) -> int {
    (bytes + per_block - 1) / per_block
}

/// The charges of some namespaces together.
pub open spec fn total_used(spaces: Spaces, names: Seq<(Seq<char>, Seq<char>)>) -> int
    decreases names.len(),
{
    if names.len() == 0 {
        0
    } else {
        total_used(spaces, names.drop_last()) + spaces[names.last()].used
    }
}

/// The bytes that a namespace borrows.
pub open spec fn borrowed_by(ns: NsView) -> int {
    quota::borrowed(ns.used as int, ns.quota().soft_bytes as int)
}

/// What other namespaces can give back of what they borrow.
pub open spec fn reclaimable(
    spaces: Spaces,
    except: (Seq<char>, Seq<char>),
    names: Seq<(Seq<char>, Seq<char>)>,
) -> int
    decreases names.len(),
{
    if names.len() == 0 {
        0
    } else {
        let rest = reclaimable(spaces, except, names.drop_last());
        let ns = spaces[names.last()];
        if names.last() == except || borrowed_by(ns) <= 0 {
            rest
        } else {
            quota::clamped(
                rest + if borrowed_by(ns) <= ns.inactive_bytes() {
                    borrowed_by(ns)
                } else {
                    ns.inactive_bytes()
                },
            )
        }
    }
}

/// The pool knows the block.
pub open spec fn known(p: Option<PoolView>, flat: Seq<u8>) -> bool {
    p is Some && p->0.by_flat.contains_key(flat)
}

/// The blocks that the pool does not know.
pub open spec fn unknown_flats(p: Option<PoolView>, hashes: Seq<Seq<u8>>) -> Set<Seq<u8>> {
    hashes.to_set().filter(|h: Seq<u8>| !known(p, h))
}

/// How room is made for `new_blocks` more blocks of a namespace, given what the
/// shared pool has free and what others can give back.
pub open spec fn ns_plan(
    k: (Seq<char>, Seq<char>),
    ns: NsView,
    new_blocks: nat,
    capacity: i64,
    free_now: int,
    avail: int,
) -> AdmitPlanView {
    let q = ns.quota();
    let per = ns.block_bytes();
    let delta = quota::clamped(quota::clamped(new_blocks as int) * per);
    let asked = quota::clamped(ns.used + delta);
    let need_hard = over(q.hard_bytes, asked);
    let need_soft = over(q.soft_bytes, asked);
    if need_hard > 0 && ns.inactive_bytes() < need_hard {
        // Not even all of its own inactive blocks make enough room.
        AdmitPlanView::Reject(
            AdmitWrite::HardQuota {
                used_bytes: ns.used,
                soft_bytes: q.soft_bytes,
                hard_bytes: q.hard_bytes,
                deficit_bytes: (need_hard - ns.inactive_bytes()) as i64,
            }.signal(k.0, k.1)->0,
        )
    } else {
        let need = if need_hard >= need_soft {
            need_hard
        } else {
            need_soft
        };
        let own = if blocks_for(need, per) <= ns.inactive_len() {
            blocks_for(need, per)
        } else {
            ns.inactive_len() as int
        };
        let room = quota::clamped(own * per);
        let left = quota::clamped(ns.used - room);
        let projected = quota::clamped(left + delta);
        let borrow = if q.borrow_enabled {
            over(q.soft_bytes, projected)
        } else {
            0
        };
        let free = if capacity > 0 {
            free_now + room
        } else {
            free_now
        };
        let short = if borrow > free {
            borrow - free
        } else {
            0
        };
        if short > avail && capacity > 0 && (q.hard_bytes == 0 || projected <= q.hard_bytes) {
            // The shared pool has no room, and others cannot give enough back.
            AdmitPlanView::Reject(
                AdmitWrite::PoolCapacity {
                    used_bytes: projected as i64,
                    soft_bytes: q.soft_bytes,
                    hard_bytes: q.hard_bytes,
                    deficit_bytes: (short - avail) as i64,
                }.signal(k.0, k.1)->0,
            )
        } else {
            match quota::classified(left, delta, q).signal(k.0, k.1) {
                Some(s) => AdmitPlanView::Reject(s),
                None => AdmitPlanView::Accept {
                    own: own as nat,
                    reclaim: if short <= avail {
                        short
                    } else {
                        avail
                    },
                },
            }
        }
    }
}

impl AuthorityView {
    /// The names of all namespaces in order.
    pub open spec fn names(self) -> Seq<(Seq<char>, Seq<char>)> {
        listing::listing::<NamespaceKey>(self.spaces.dom())
    }

    /// What the shared pool has free; a quarter of all numbers where it has no
    /// limit.
    pub open spec fn free_bytes(self) -> int {
        if self.capacity <= 0 {
            i64::MAX / 4
        } else if self.capacity > total_used(self.spaces, self.names()) {
            self.capacity - total_used(self.spaces, self.names())
        } else {
            0
        }
    }

    /// How room is made for `new_blocks` more blocks.
    pub open spec fn plan(self, k: (Seq<char>, Seq<char>), new_blocks: nat) -> Result<
        AdmitPlanView,
        Seq<char>,
    > {
        if new_blocks == 0 {
            Ok(AdmitPlanView::Accept { own: 0, reclaim: 0 })
        } else if !self.spaces.contains_key(k) {
            Err("admit: unknown namespace "@ + text::ns_named(k.0, k.1))
        } else {
            Ok(
                ns_plan(
                    k,
                    self.spaces[k],
                    new_blocks,
                    self.capacity,
                    self.free_bytes(),
                    reclaimable(self.spaces, k, self.names()),
                ),
            )
        }
    }

    /// Blocks of a namespace make room.
    pub open spec fn ns_evicted(self, k: (Seq<char>, Seq<char>), n: nat) -> AuthorityView {
        let (ns, gone) = self.spaces[k].evicted(n);
        self.with_ns(k, ns).with_events(namespace::gone_events(k.0, k.1, gone))
    }

    /// Namespaces that borrow give blocks back, one after another, until enough is
    /// free; with how much is.
    pub open spec fn reclaimed(
        self,
        except: (Seq<char>, Seq<char>),
        want: int,
        names: Seq<(Seq<char>, Seq<char>)>,
    ) -> (AuthorityView, int)
        decreases names.len(),
    {
        if names.len() == 0 {
            (self, 0)
        } else {
            let (a, freed) = self.reclaimed(except, want, names.drop_last());
            let k = names.last();
            let ns = a.spaces[k];
            if k == except || freed >= want || borrowed_by(ns) <= 0 {
                (a, freed)
            } else {
                let aim = if want - freed <= borrowed_by(ns) {
                    want - freed
                } else {
                    borrowed_by(ns)
                };
                let n = blocks_for(aim, ns.block_bytes()) as nat;
                (
                    a.ns_evicted(k, n),
                    quota::clamped(freed + ns.evicted(n).1.len() * ns.block_bytes()),
                )
            }
        }
    }

    /// A plan is carried out.
    pub open spec fn admitted(self, k: (Seq<char>, Seq<char>), plan: AdmitPlanView) -> AuthorityView {
        match plan {
            AdmitPlanView::Reject(_) => self,
            AdmitPlanView::Accept { own, reclaim } => {
                let a = if own > 0 && self.spaces.contains_key(k) {
                    self.ns_evicted(k, own)
                } else {
                    self
                };
                if reclaim > 0 {
                    a.reclaimed(k, reclaim, a.names()).0
                } else {
                    a
                }
            },
        }
    }

    /// What would become of a write of these blocks.
    pub open spec fn preflight(
        self,
        k: (Seq<char>, Seq<char>),
        raw_kind: i32,
        hashes: Seq<Seq<u8>>,
    ) -> Result<RegisterStatusView, Seq<char>> {
        match pool::pool_kind_of(raw_kind) {
            Err(e) => Err(e),
            Ok(pk) => if !self.spaces.contains_key(k) {
                Err("preflight: model not registered "@ + text::ns_named(k.0, k.1))
            } else {
                Ok(
                    self.plan(k, unknown_flats(self.spaces[k].pool(pk), hashes).len())->Ok_0.status(),
                )
            },
        }
    }
}

/// The number above a limit.
fn over_limit(limit: i64, n: i64) -> (r: i64)
    ensures
        r == over(limit, n as int),
        r >= 0,
{
    if limit > 0 && n > limit {
        n - limit
    } else {
        0
    }
}

/// How many blocks hold so many bytes.
fn count_blocks(bytes: i64, per_block: i64) -> (n: u64)
    requires
        bytes >= 0,
        per_block >= 1,
    ensures
        n == blocks_for(bytes as int, per_block as int),
        n <= bytes,
{
    let n: i128 = (bytes as i128 + per_block as i128 - 1) / per_block as i128;
    assert(0 <= (bytes + per_block - 1) / per_block as int <= bytes) by (nonlinear_arith)
        requires
            bytes >= 0,
            per_block >= 1,
    ;
    n as u64
}

/// Collects the blocks that the pool does not know, and counts them.
pub(crate) fn count_unknown(pool: Option<&Pool>, hashes: &Vec<Vec<u8>>) -> (n: usize)
    ensures
        n == unknown_flats(
            match pool {
                Some(p) => Some(p@),
                None => None,
            },
            keys::views(hashes@),
        ).len(),
{
    let ghost p = match pool {
        Some(p) => Some(p@),
        None => None,
    };
    let ghost all = keys::views(hashes@);
    let mut fresh: KeySet<Vec<u8>> = KeySet::new();
    let mut i: usize = 0;
    assert(fresh@ =~= unknown_flats(p, all.take(0)));
    while i < hashes.len()
        invariant
            i <= hashes@.len(),
            all == keys::views(hashes@),
            p == match pool {
                Some(p) => Some(p@),
                None => None,
            },
            fresh@ == unknown_flats(p, all.take(i as int)),
        decreases hashes@.len() - i,
    {
        let h = &hashes[i];
        let there = match pool {
            Some(p) => p.by_flat.contains_key(h),
            None => false,
        };
        proof {
            assert(all.take(i + 1) =~= all.take(i as int).push(h@));
            pool::lemma_push_to_set(all.take(i as int), h@);
        }
        if !there {
            fresh.insert(h.dup());
        }
        assert(fresh@ =~= unknown_flats(p, all.take(i + 1)));
        i += 1;
    }
    assert(all.take(i as int) =~= all);
    fresh.len()
}

impl Authority {
    fn total_used_bytes(&self) -> (n: i128)
        requires
            self.wf(),
        ensures
            n == total_used(self@.spaces, self@.names()),
            n >= 0,
    {
        let names = sorted_keys(&self.namespaces);
        let ghost all = keys::views(names@);
        let mut n: i128 = 0;
        let mut i: usize = 0;
        while i < names.len()
            invariant
                i <= names@.len(),
                self.wf(),
                all == keys::views(names@),
                listing::lists::<NamespaceKey>(all, self@.spaces.dom()),
                n == total_used(self@.spaces, all.take(i as int)),
                0 <= n <= i * 9223372036854775807,
            decreases names@.len() - i,
        {
            proof {
                assert(all[i as int] == names@[i as int]@);
                assert(all.to_set().contains(names@[i as int]@));
                assert(all.take(i + 1).drop_last() =~= all.take(i as int));
            }
            if let Some(ns) = self.namespaces.get(&names[i]) {
                n = n + ns.used_bytes as i128;
            }
            i += 1;
        }
        assert(all.take(i as int) =~= all);
        n
    }

    fn free_bytes(&self) -> (n: i64)
        requires
            self.wf(),
        ensures
            n == self@.free_bytes(),
            n >= 0,
    {
        if self.capacity_bytes <= 0 {
            return 2_305_843_009_213_693_951;
        }
        let rest: i128 = self.capacity_bytes as i128 - self.total_used_bytes();
        if rest > 0 {
            rest as i64
        } else {
            0
        }
    }

    /// What other namespaces can give back of what they borrow.
    fn reclaimable_borrowed_bytes(&self, except: &NamespaceKey) -> (total: i64)
        requires
            self.wf(),
        ensures
            total == reclaimable(self@.spaces, except@, self@.names()),
            total >= 0,
    {
        let names = sorted_keys(&self.namespaces);
        let ghost all = keys::views(names@);
        let mut total: i64 = 0;
        let mut i: usize = 0;
        while i < names.len()
            invariant
                i <= names@.len(),
                self.wf(),
                all == keys::views(names@),
                listing::lists::<NamespaceKey>(all, self@.spaces.dom()),
                total == reclaimable(self@.spaces, except@, all.take(i as int)),
                total >= 0,
            decreases names@.len() - i,
        {
            let k = &names[i];
            proof {
                assert(all[i as int] == k@);
                assert(all.to_set().contains(k@));
                assert(all.take(i + 1).drop_last() =~= all.take(i as int));
            }
            if let Some(ns) = self.namespaces.get(k) {
                if !k.same(except) {
                    let more: i64 = borrowed_bytes(ns.used_bytes, ns.quota().soft_bytes);
                    if more > 0 {
                        let have: i64 = ns.inactive_bytes();
                        let add: i64 = if more <= have {
                            more
                        } else {
                            have
                        };
                        total = clamp(total as i128 + add as i128);
                    }
                }
            }
            i += 1;
        }
        assert(all.take(i as int) =~= all);
        total
    }

    /// Decides how room is made for `new_blocks` more blocks, or that they are
    /// refused; changes nothing.
    fn plan_admit(&self, model_id: &str, revision: &str, new_blocks: usize) -> (r: Result<
        AdmitPlan,
        String,
    >)
        requires
            self.wf(),
        ensures
            keys::seen(r) == self@.plan((model_id@, revision@), new_blocks as nat),
    {
        if new_blocks == 0 {
            return Ok(AdmitPlan::Accept { own_evict_n: 0, reclaim_bytes: 0 });
        }
        match self.ns(model_id, revision) {
            None => Err(joined("admit: unknown namespace ", ns_text(model_id, revision).as_str())),
            Some(ns) => {
                assert(ns@.wf()) by {
                    assert(self@.spaces.contains_key((model_id@, revision@)));
                }
                let key = NamespaceKey::new(model_id, revision);
                Ok(
                    plan_for(
                        model_id,
                        revision,
                        ns,
                        new_blocks,
                        self.capacity_bytes,
                        self.free_bytes(),
                        self.reclaimable_borrowed_bytes(&key),
                    ),
                )
            },
        }
    }

    fn evict_in(&mut self, key: &NamespaceKey, n: u64) -> (gone: usize)
        requires
            old(self).wf(),
            old(self)@.spaces.contains_key(key@),
        ensures
            final(self)@ == old(self)@.ns_evicted(key@, n as nat),
            gone == old(self)@.spaces[key@].evicted(n as nat).1.len(),
            final(self).wf(),
    {
        match self.namespaces.remove(key) {
            Some(mut ns) => {
                let ghost was = ns@;
                let gone = ns.evict_inactive_n(n);
                let ghost now = ns@;
                self.namespaces.insert(key.dup(), ns);
                assert(self@ =~= old(self)@.with_ns(key@, now));
                self.note(
                    invalidated_events_for(
                        key.model_id.as_str(),
                        key.revision.as_str(),
                        &gone,
                    ),
                );
                gone.len()
            },
            None => 0,
        }
    }

    /// Makes room as planned.
    fn commit_admit(&mut self, key: &NamespaceKey, plan: &AdmitPlan)
        requires
            old(self).wf(),
        ensures
            final(self)@ == old(self)@.admitted(key@, plan@),
            final(self).wf(),
            final(self)@.spaces.dom() == old(self)@.spaces.dom(),
    {
        if let AdmitPlan::Accept { own_evict_n, reclaim_bytes } = plan {
            if *own_evict_n > 0 && self.namespaces.contains_key(key) {
                self.evict_in(key, *own_evict_n);
            }
            assert(self@.spaces.dom() =~= old(self)@.spaces.dom());
            if *reclaim_bytes > 0 {
                self.reclaim_borrowed_bytes(key, *reclaim_bytes);
            }
        }
    }

    /// Has namespaces that borrow give blocks back until enough is free; returns
    /// how much is.
    fn reclaim_borrowed_bytes(&mut self, except: &NamespaceKey, want_bytes: i64) -> (freed: i64)
        requires
            old(self).wf(),
        ensures
            final(self)@ == old(self)@.reclaimed(
                except@,
                want_bytes as int,
                old(self)@.names(),
            ).0,
            freed == old(self)@.reclaimed(except@, want_bytes as int, old(self)@.names()).1,
            final(self).wf(),
            final(self)@.spaces.dom() == old(self)@.spaces.dom(),
    {
        let names = sorted_keys(&self.namespaces);
        let ghost all = keys::views(names@);
        let ghost start = self@;
        let mut freed: i64 = 0;
        let mut i: usize = 0;
        while i < names.len()
            invariant
                i <= names@.len(),
                self.wf(),
                all == keys::views(names@),
                listing::lists::<NamespaceKey>(all, start.spaces.dom()),
                self@.spaces.dom() == start.spaces.dom(),
                self@ == start.reclaimed(except@, want_bytes as int, all.take(i as int)).0,
                freed == start.reclaimed(except@, want_bytes as int, all.take(i as int)).1,
                freed >= 0,
            decreases names@.len() - i,
        {
            let k = &names[i];
            let ghost now = self@;
            proof {
                assert(all[i as int] == k@);
                assert(all.to_set().contains(k@));
                assert(self@.spaces.contains_key(k@));
                assert(all.take(i + 1).drop_last() =~= all.take(i as int));
            }
            if !k.same(except) && freed < want_bytes {
                let (more, per) = match self.namespaces.get(k) {
                    Some(ns) => (
                        borrowed_bytes(ns.used_bytes, ns.quota().soft_bytes),
                        ns.bytes_per_block(),
                    ),
                    None => (0i64, 1i64),
                };
                if more > 0 {
                    let still: i64 = want_bytes - freed;
                    let aim: i64 = if still <= more {
                        still
                    } else {
                        more
                    };
                    let n: u64 = count_blocks(aim, per);
                    let gone: usize = self.evict_in(k, n);
                    assert(self@.spaces.dom() =~= start.spaces.dom());
                    assert(0 <= gone * per <= 170141183460469231722463931679029329921)
                        by (nonlinear_arith)
                        requires
                            0 <= gone <= 18446744073709551615,
                            1 <= per <= 9223372036854775807,
                    ;
                    freed = clamp(freed as i128 + gone as i128 * per as i128);
                }
            }
            i += 1;
        }
        assert(all.take(i as int) =~= all);
        freed
    }

    /// What would become of a write; changes nothing.
    pub fn preflight_register(
        &self,
        model_id: &str,
        revision: &str,
        pool_kind: i32,
        block_hashes: &Vec<Vec<u8>>,
    ) -> (r: Result<RegisterStatus, String>)
        requires
            self.wf(),
        ensures
            keys::seen(r) == self@.preflight((model_id@, revision@), pool_kind, keys::views(block_hashes@)),
    {
        let pk: i32 = match resolve_pool_kind(pool_kind) {
            Ok(pk) => pk,
            Err(e) => return Err(e),
        };
        match self.ns(model_id, revision) {
            None => Err(
                joined("preflight: model not registered ", ns_text(model_id, revision).as_str()),
            ),
            Some(ns) => {
                let n = count_unknown(ns.pool(pk), block_hashes);
                match self.plan_admit(model_id, revision, n) {
                    Ok(plan) => Ok(plan.status()),
                    Err(e) => Err(e),
                }
            },
        }
    }

    /// Makes a plan and carries it out; a refusal changes nothing.
    pub(crate) fn admit_register_bytes(
        &mut self,
        model_id: &str,
        revision: &str,
        new_blocks: usize,
    ) -> (r: Result<RegisterStatus, String>)
        requires
            old(self).wf(),
        ensures
            ({
                let k = (model_id@, revision@);
                match old(self)@.plan(k, new_blocks as nat) {
                    Ok(plan) => keys::seen(r) == Ok::<RegisterStatusView, Seq<char>>(plan.status())
                        && final(self)@ == old(self)@.admitted(k, plan),
                    Err(e) => keys::seen(r) == Err::<RegisterStatusView, Seq<char>>(e) && final(self)@
                        == old(self)@,
                }
            }),
            final(self).wf(),
            final(self)@.spaces.dom() == old(self)@.spaces.dom(),
    {
        let plan = match self.plan_admit(model_id, revision, new_blocks) {
            Ok(plan) => plan,
            Err(e) => return Err(e),
        };
        let key = NamespaceKey::new(model_id, revision);
        self.commit_admit(&key, &plan);
        Ok(plan.status())
    }
}

/// Decides how room is made for more blocks of a namespace.
fn plan_for(
    model_id: &str,
    revision: &str,
    ns: &Namespace,
    new_blocks: usize,
    capacity: i64,
    free_now: i64,
    avail: i64,
) -> (plan: AdmitPlan)
    requires
        ns@.wf(),
        free_now >= 0,
        avail >= 0,
    ensures
        plan@ == ns_plan(
            (model_id@, revision@),
            ns@,
            new_blocks as nat,
            capacity,
            free_now as int,
            avail as int,
        ),
{
    let q: Quota = ns.quota();
    let per: i64 = ns.bytes_per_block();
    let used: i64 = ns.used_bytes;
    let count: i64 = clamp(new_blocks as i128);
    assert(0 <= count * per <= 85070591730234615847396907784232501249) by (nonlinear_arith)
        requires
            0 <= count <= 9223372036854775807,
            1 <= per <= 9223372036854775807,
    ;
    let delta: i64 = clamp(count as i128 * per as i128);
    let asked: i64 = clamp(used as i128 + delta as i128);
    let inactive_bytes: i64 = ns.inactive_bytes();
    let need_hard: i64 = over_limit(q.hard_bytes, asked);
    let need_soft: i64 = over_limit(q.soft_bytes, asked);
    if need_hard > 0 && inactive_bytes < need_hard {
        let w = AdmitWrite::HardQuota {
            used_bytes: used,
            soft_bytes: q.soft_bytes,
            hard_bytes: q.hard_bytes,
            deficit_bytes: need_hard - inactive_bytes,
        };
        return reject(w, model_id, revision);
    }
    let need: i64 = if need_hard >= need_soft {
        need_hard
    } else {
        need_soft
    };
    let wanted: u64 = count_blocks(need, per);
    let inactive_n: i128 = ns.inactive_len();
    let own: u64 = if wanted as i128 <= inactive_n {
        wanted
    } else {
        inactive_n as u64
    };
    assert(0 <= own * per <= 170141183460469231722463931679029329921) by (nonlinear_arith)
        requires
            0 <= own <= 18446744073709551615,
            1 <= per <= 9223372036854775807,
    ;
    let room: i64 = clamp(own as i128 * per as i128);
    let left: i64 = clamp(used as i128 - room as i128);
    let projected: i64 = clamp(left as i128 + delta as i128);
    let borrow: i64 = if q.borrow_enabled {
        over_limit(q.soft_bytes, projected)
    } else {
        0
    };
    let free: i128 = if capacity > 0 {
        free_now as i128 + room as i128
    } else {
        free_now as i128
    };
    let short: i64 = if borrow as i128 > free {
        (borrow as i128 - free) as i64
    } else {
        0
    };
    if short > avail && capacity > 0 && (q.hard_bytes == 0 || projected <= q.hard_bytes) {
        let w = AdmitWrite::PoolCapacity {
            used_bytes: projected,
            soft_bytes: q.soft_bytes,
            hard_bytes: q.hard_bytes,
            deficit_bytes: short - avail,
        };
        return reject(w, model_id, revision);
    }
    match classify_write(left, delta, &q).backpressure(model_id, revision) {
        Some(s) => AdmitPlan::Reject(s),
        None => AdmitPlan::Accept {
            own_evict_n: own,
            reclaim_bytes: if short <= avail {
                short
            } else {
                avail
            },
        },
    }
}

fn reject(w: AdmitWrite, model_id: &str, revision: &str) -> (plan: AdmitPlan)
    requires
        w.signal(model_id@, revision@) is Some,
    ensures
        plan@ == AdmitPlanView::Reject(w.signal(model_id@, revision@)->0),
{
    match w.backpressure(model_id, revision) {
        Some(s) => AdmitPlan::Reject(s),
        None => AdmitPlan::Accept { own_evict_n: 0, reclaim_bytes: 0 },
    }
}

} // verus!
