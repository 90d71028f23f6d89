//! The control plane as an agent reaches it.

use vstd::prelude::*;
use vstd::string::*;

use crate::base::keys;
use crate::base::text;
use crate::base::text::{joined, signed_text, text};
use crate::control::admission::{RegisterStatus, RegisterStatusView};
use crate::control::authority::{Authority, AuthorityView};
use crate::control::hash_chain::MAX_CHAIN;
use crate::control::register;
use crate::control::register::{collect_hashes, collect_ids};
use crate::proto::{
    BackpressureSignal, BackpressureSignalView, LocationView, RefDelta, RefDeltaView,
    RegisterBlocksRequest, RegisterBlocksRequestView, RequestBarrierRequest,
    RequestBarrierRequestView, Tier,
};

verus! {

/// What a refusal says.
pub type Words = Seq<char>;

/// What an agent may ask the control plane.
pub enum PortCall {
    /// Whether blocks would be let in.
    Admit(RegisterBlocksRequestView),
    /// To register blocks.
    Register(RegisterBlocksRequestView),
    /// To change reference counts, all or none.
    Refs(Seq<RefDeltaView>),
    /// To take a write as complete.
    Barrier(RequestBarrierRequestView),
    /// That a block came to a tier of a node, or left it.
    Publish {
        ns: (Seq<char>, Seq<char>),
        pool_kind: i32,
        flat: Seq<u8>,
        tier: Tier,
        node_id: Seq<char>,
        present: bool,
    },
    /// That object storage holds a block, or does not.
    L3 { ns: (Seq<char>, Seq<char>), pool_kind: i32, flat: Seq<u8>, present: bool },
    /// That a block moved within a tier.
    Relocate {
        ns: (Seq<char>, Seq<char>),
        pool_kind: i32,
        flat: Seq<u8>,
        tier: Tier,
        node_id: Seq<char>,
        segment_id: u64,
        offset: u64,
    },
}

/// A way to reach the control plane. What it answers follows from its state, which
/// `answer` moves on from call to call.
pub trait ControlPlanePort: Sized {
    /// What answers follow from.
    type State;

    /// The state.
    spec fn state(&self) -> Self::State;

    /// The next state and the answer.
    spec fn answer(state: Self::State, call: PortCall) -> (Self::State, Result<(), Words>);

    /// The port can be called.
    spec fn ready(&self) -> bool;

    /// Asks whether blocks would be let in, before their bytes are written.
    fn admit_register_blocks(&mut self, req: &RegisterBlocksRequest) -> (r: Result<(), String>)
        requires
            old(self).ready(),
        ensures
            (final(self).state(), keys::told(r)) == Self::answer(old(self).state(), PortCall::Admit(req@)),
            final(self).ready(),
    ;

    /// Registers blocks.
    fn register_blocks(&mut self, req: RegisterBlocksRequest) -> (r: Result<(), String>)
        requires
            old(self).ready(),
            req@.prefix_hashes.len() <= MAX_CHAIN,
        ensures
            (final(self).state(), keys::told(r)) == Self::answer(old(self).state(), PortCall::Register(req@)),
            final(self).ready(),
    ;

    /// Changes reference counts.
    fn report_refs(&mut self, deltas: &[RefDelta]) -> (r: Result<(), String>)
        requires
            old(self).ready(),
        ensures
            (final(self).state(), keys::told(r)) == Self::answer(old(self).state(), PortCall::Refs(keys::views(deltas@))),
            final(self).ready(),
    ;

    /// Asks that a write be taken as complete.
    fn request_barrier(&mut self, req: RequestBarrierRequest) -> (r: Result<(), String>)
        requires
            old(self).ready(),
        ensures
            (final(self).state(), keys::told(r)) == Self::answer(old(self).state(), PortCall::Barrier(req@)),
            final(self).ready(),
    ;

    /// Tells that a block came to a tier of a node, or left it.
    fn publish_location(
        &mut self,
        model_id: &str,
        revision: &str,
        pool_kind: i32,
        flat: &[u8],
        tier: Tier,
        node_id: &str,
        present: bool,
    ) -> (r: Result<(), String>)
        requires
            old(self).ready(),
        ensures
            (final(self).state(), keys::told(r)) == Self::answer(
                old(self).state(),
                PortCall::Publish {
                    ns: (model_id@, revision@),
                    pool_kind,
                    flat: flat@,
                    tier,
                    node_id: node_id@,
                    present,
                },
            ),
            final(self).ready(),
    ;

    /// Tells whether object storage holds a block.
    fn set_l3_present(
        &mut self,
        model_id: &str,
        revision: &str,
        pool_kind: i32,
        flat: &[u8],
        present: bool,
    ) -> (r: Result<(), String>)
        requires
            old(self).ready(),
        ensures
            (final(self).state(), keys::told(r)) == Self::answer(
                old(self).state(),
                PortCall::L3 { ns: (model_id@, revision@), pool_kind, flat: flat@, present },
            ),
            final(self).ready(),
    ;

    /// Tells that a block moved within a tier.
    fn relocate_in_view(
        &mut self,
        model_id: &str,
        revision: &str,
        pool_kind: i32,
        flat: &[u8],
        tier: Tier,
        node_id: &str,
        segment_id: u64,
        offset: u64,
    ) -> (r: Result<(), String>)
        requires
            old(self).ready(),
        ensures
            (final(self).state(), keys::told(r)) == Self::answer(
                old(self).state(),
                PortCall::Relocate {
                    ns: (model_id@, revision@),
                    pool_kind,
                    flat: flat@,
                    tier,
                    node_id: node_id@,
                    segment_id,
                    offset,
                },
            ),
            final(self).ready(),
    ;
}

/// Calls are made in order up to the first that is refused.
pub open spec fn sent<P: ControlPlanePort>(state: P::State, calls: Seq<PortCall>) -> (
    P::State,
    Result<(), Seq<char>>,
)
    decreases calls.len(),
{
    if calls.len() == 0 {
        (state, Ok(()))
    } else {
        let (s, r) = sent::<P>(state, calls.drop_last());
        match r {
            Ok(_) => P::answer(s, calls.last()),
            Err(e) => (s, Err(e)),
        }
    }
}

/// One more call is made where none was refused.
pub proof fn sent_then<P: ControlPlanePort>(state: P::State, calls: Seq<PortCall>, call: PortCall)
    ensures
        sent::<P>(state, calls.push(call)) == match sent::<P>(state, calls).1 {
            Ok(_) => P::answer(sent::<P>(state, calls).0, call),
            Err(e) => sent::<P>(state, calls),
        },
{
    assert(calls.push(call).drop_last() =~= calls);
}

/// More calls go on from where the first ended, unless one of these was refused.
pub proof fn sending_goes_on<P: ControlPlanePort>(
    state: P::State,
    calls: Seq<PortCall>,
    rest: Seq<PortCall>,
)
    requires
        sent::<P>(state, calls).1 is Ok,
    ensures
        sent::<P>(state, calls + rest) == sent::<P>(sent::<P>(state, calls).0, rest),
    decreases rest.len(),
{
    if rest.len() == 0 {
        assert(calls + rest =~= calls);
        assert(sent::<P>(state, calls).1->Ok_0 == ());
    } else {
        sending_goes_on::<P>(state, calls, rest.drop_last());
        assert((calls + rest).drop_last() =~= calls + rest.drop_last());
    }
}

/// After a refusal no call is made.
pub proof fn refusal_ends_sending<P: ControlPlanePort>(
    state: P::State,
    calls: Seq<PortCall>,
    rest: Seq<PortCall>,
)
    requires
        sent::<P>(state, calls).1 is Err,
    ensures
        sent::<P>(state, calls + rest) == sent::<P>(state, calls),
    decreases rest.len(),
{
    if rest.len() == 0 {
        assert(calls + rest =~= calls);
    } else {
        assert((calls + rest).drop_last() =~= calls + rest.drop_last());
        refusal_ends_sending::<P>(state, calls, rest.drop_last());
    }
}

/// The answer to a write: done, or refused with a reason.
pub open spec fn write_told(who: Seq<char>, r: Result<RegisterStatusView, Seq<char>>) -> Result<
    (),
    Seq<char>,
> {
    match r {
        Ok(RegisterStatusView::Accepted) => Ok(()),
        Ok(RegisterStatusView::RejectedHardQuota(s)) => Err(
            who + ": admission rejected reason="@ + s.reason + " deficit="@ + text::signed(
                s.deficit_bytes as int,
            ),
        ),
        Err(e) => Err(e),
    }
}

/// The pressure after a write: that of the last one which a hard quota refused.
pub open spec fn pressure_after(
    before: Option<BackpressureSignalView>,
    r: Result<RegisterStatusView, Seq<char>>,
) -> Option<BackpressureSignalView> {
    match r {
        Ok(RegisterStatusView::RejectedHardQuota(s)) => Some(s),
        _ => before,
    }
}

/// Whether blocks would be let in, by the namespace and pool of the first of them.
pub open spec fn admission(a: AuthorityView, req: RegisterBlocksRequestView) -> Result<
    RegisterStatusView,
    Seq<char>,
> {
    let ids = register::ids_of(req.blocks);
    if ids.len() == 0 {
        Err("AdmitRegister: no KVBlockID"@)
    } else {
        a.preflight((ids[0].model_id, ids[0].revision), ids[0].pool_kind, register::hashes_of(ids))
    }
}

/// An authority in this process, and the pressure that it last signalled.
pub struct AuthorityPort {
    pub auth: Authority,
    pub pressure: Option<BackpressureSignal>,
}

/// What an `AuthorityPort` stands for.
#[verifier::ext_equal]
pub struct AuthorityPortView {
    pub auth: AuthorityView,
    pub pressure: Option<BackpressureSignalView>,
}

impl View for AuthorityPort {
    type V = AuthorityPortView;

    open spec fn view(&self) -> AuthorityPortView {
        AuthorityPortView { auth: self.auth@, pressure: keys::opt(self.pressure) }
    }
}

impl AuthorityPort {
    /// A port to an authority.
    pub fn new(auth: Authority) -> (p: Self)
        ensures
            p@ == (AuthorityPortView { auth: auth@, pressure: None }),
            auth.wf() ==> p.ready(),
    {
        AuthorityPort { auth, pressure: None }
    }

    /// Notes the pressure of a write and tells its answer.
    fn answer_write(&mut self, who: &str, r: Result<RegisterStatus, String>) -> (told: Result<
        (),
        String,
    >)
        ensures
            keys::told(told) == write_told(who@, keys::seen(r)),
            final(self)@ == (AuthorityPortView {
                pressure: pressure_after(old(self)@.pressure, keys::seen(r)),
                ..old(self)@
            }),
            final(self).auth == old(self).auth,
    {
        match r {
            Ok(RegisterStatus::Accepted) => Ok(()),
            Ok(RegisterStatus::RejectedHardQuota(s)) => {
                let mut err = joined(who, ": admission rejected reason=");
                err.append(s.reason.as_str());
                err.append(" deficit=");
                err.append(signed_text(s.deficit_bytes).as_str());
                self.pressure = Some(s);
                Err(err)
            },
            Err(e) => Err(e),
        }
    }
}

impl ControlPlanePort for AuthorityPort {
    type State = AuthorityPortView;

    open spec fn state(&self) -> AuthorityPortView {
        self@
    }

    open spec fn answer(state: AuthorityPortView, call: PortCall) -> (
        AuthorityPortView,
        Result<(), Seq<char>>,
    ) {
        let a = state.auth;
        match call {
            PortCall::Admit(req) => {
                let r = admission(a, req);
                (
                    AuthorityPortView { pressure: pressure_after(state.pressure, r), ..state },
                    write_told("AdmitRegister"@, r),
                )
            },
            PortCall::Register(req) => {
                let (b, r) = a.registered(req.node_id, req.prefix_hashes, req.blocks);
                (
                    AuthorityPortView { auth: b, pressure: pressure_after(state.pressure, r) },
                    write_told("RegisterBlocks"@, r),
                )
            },
            PortCall::Refs(deltas) => match a.refs_reported(deltas) {
                Ok(b) => (AuthorityPortView { auth: b, ..state }, Ok(())),
                Err(e) => (state, Err(e)),
            },
            PortCall::Barrier(req) => {
                let (b, r) = a.barrier_set(req.request_id, req.node_id);
                (AuthorityPortView { auth: b, ..state }, r)
            },
            PortCall::Publish { ns, pool_kind, flat, tier, node_id, present } => {
                let l = LocationView {
                    tier: tier.spec_number(),
                    node_id,
                    segment_id: 1,
                    offset: 0,
                };
                let (b, r) = a.location_published(ns, pool_kind, flat, l, present);
                (AuthorityPortView { auth: b, ..state }, r)
            },
            PortCall::L3 { ns, pool_kind, flat, present } => {
                let (b, r) = a.l3_set(ns, pool_kind, flat, present);
                (AuthorityPortView { auth: b, ..state }, r)
            },
            PortCall::Relocate { ns, pool_kind, flat, tier, node_id, segment_id, offset } => {
                let l = LocationView { tier: tier.spec_number(), node_id, segment_id, offset };
                let (b, r) = a.relocated_to(ns, pool_kind, flat, l);
                (AuthorityPortView { auth: b, ..state }, r)
            },
        }
    }

    open spec fn ready(&self) -> bool {
        self.auth.wf()
    }

    fn admit_register_blocks(&mut self, req: &RegisterBlocksRequest) -> (r: Result<(), String>) {
        let ids = collect_ids(&req.blocks);
        let r: Result<RegisterStatus, String> = if ids.len() == 0 {
            Err(text("AdmitRegister: no KVBlockID"))
        } else {
            let hashes = collect_hashes(&ids);
            self.auth.preflight_register(
                ids[0].model_id.as_str(),
                ids[0].revision.as_str(),
                ids[0].pool_kind,
                &hashes,
            )
        };
        self.answer_write("AdmitRegister", r)
    }

    fn register_blocks(&mut self, req: RegisterBlocksRequest) -> (r: Result<(), String>) {
        let r = self.auth.register(
            req.node_id.as_str(),
            req.prefix_hashes.as_slice(),
            req.blocks,
        );
        self.answer_write("RegisterBlocks", r)
    }

    fn report_refs(&mut self, deltas: &[RefDelta]) -> (r: Result<(), String>) {
        self.auth.report_refs(deltas)
    }

    fn request_barrier(&mut self, req: RequestBarrierRequest) -> (r: Result<(), String>) {
        self.auth.complete_barrier(req.request_id.as_str(), req.node_id.as_str())
    }

    fn publish_location(
        &mut self,
        model_id: &str,
        revision: &str,
        pool_kind: i32,
        flat: &[u8],
        tier: Tier,
        node_id: &str,
        present: bool,
    ) -> (r: Result<(), String>) {
        self.auth.publish_location(model_id, revision, pool_kind, flat, tier, node_id, present)
    }

    fn set_l3_present(
        &mut self,
        model_id: &str,
        revision: &str,
        pool_kind: i32,
        flat: &[u8],
        present: bool,
    ) -> (r: Result<(), String>) {
        self.auth.set_l3_present(model_id, revision, pool_kind, flat, present)
    }

    fn relocate_in_view(
        &mut self,
        model_id: &str,
        revision: &str,
        pool_kind: i32,
        flat: &[u8],
        tier: Tier,
        node_id: &str,
        segment_id: u64,
        offset: u64,
    ) -> (r: Result<(), String>) {
        self.auth.relocate_in_view(
            model_id,
            revision,
            pool_kind,
            flat,
            tier,
            node_id,
            segment_id,
            offset,
        )
    }
}

} // verus!
