//! What an agent answers to work, to load reports and to placements. Its answers
//! carry the pressure of the last write that a hard quota refused, as long as it is
//! recent.

use vstd::prelude::*;
use vstd::string::*;

use crate::base::keys;
use crate::base::keys::Dup;
use crate::base::text::text;
use crate::proto::{
    Ack, AckView, BackpressureSignal, BackpressureSignalView, DispatchRequest, LoadReport,
};
use crate::transfer::error::{Code, Refusal, RefusalView};
use crate::transfer::tcp;
use crate::transfer::tcp::next_number;

verus! {

/// How long a pressure is recent, in milliseconds. Nothing tells that it has passed.
pub const BACKPRESSURE_FRESH_TTL: u64 = 30_000;

/// The state of an agent.
#[verifier::ext_equal]
pub struct AgentView {
    pub dispatched: u64,
    pub reports: u64,
    /// The last pressure, and when it was noted.
    pub pressure: Option<(BackpressureSignalView, u64)>,
}

impl AgentView {
    /// An agent that has done nothing.
    pub open spec fn fresh() -> AgentView {
        AgentView { dispatched: 0, reports: 0, pressure: None }
    }

    /// The pressure that is recent at this time. A time before the note's counts as
    /// the note's.
    pub open spec fn recent(self, now_ms: u64) -> Option<BackpressureSignalView> {
        match self.pressure {
            Some((signal, at)) => if now_ms - at < BACKPRESSURE_FRESH_TTL {
                Some(signal)
            } else {
                None
            },
            None => None,
        }
    }

    /// A yes that carries the pressure.
    pub open spec fn yes(self, now_ms: u64) -> AckView {
        AckView { ok: true, err: Seq::empty(), backpressure: self.recent(now_ms) }
    }
}

/// The agent of a node.
pub struct Agent {
    pub dispatched: u64,
    pub reports: u64,
    pub pressure: Option<BackpressureSignal>,
    pub pressure_at: u64,
}

impl View for Agent {
    type V = AgentView;

    open spec fn view(&self) -> AgentView {
        AgentView {
            dispatched: self.dispatched,
            reports: self.reports,
            pressure: match self.pressure {
                Some(s) => Some((s@, self.pressure_at)),
                None => None,
            },
        }
    }
}

impl Default for Agent {
    fn default() -> (a: Self)
        ensures
            a@ == AgentView::fresh(),
    {
        Agent { dispatched: 0, reports: 0, pressure: None, pressure_at: 0 }
    }
}

impl Agent {
    /// The number of pieces of work that were taken.
    pub fn dispatch_count(&self) -> (n: u64)
        ensures
            n == self@.dispatched,
    {
        self.dispatched
    }

    /// The number of load reports that came.
    pub fn load_report_count(&self) -> (n: u64)
        ensures
            n == self@.reports,
    {
        self.reports
    }

    /// Notes a pressure.
    pub fn record_backpressure(&mut self, bp: BackpressureSignal, now_ms: u64)
        ensures
            final(self)@ == (AgentView { pressure: Some((bp@, now_ms)), ..old(self)@ }),
    {
        self.pressure = Some(bp);
        self.pressure_at = now_ms;
    }

    /// The pressure that is recent.
    pub fn last_backpressure(&self, now_ms: u64) -> (bp: Option<BackpressureSignal>)
        ensures
            keys::opt(bp) == self@.recent(now_ms),
    {
        match &self.pressure {
            Some(s) => {
                let age: u64 = if now_ms >= self.pressure_at {
                    now_ms - self.pressure_at
                } else {
                    0
                };
                if age < BACKPRESSURE_FRESH_TTL {
                    Some(s.dup())
                } else {
                    None
                }
            },
            None => None,
        }
    }

    fn acknowledge(&self, now_ms: u64) -> (a: Ack)
        ensures
            a@ == self@.yes(now_ms),
    {
        let a = Ack {
            ok: true,
            err: String::new(),
            backpressure: self.last_backpressure(now_ms),
        };
        assert(a@.err =~= Seq::empty());
        a
    }

    /// Takes work, which must name its node.
    pub fn dispatch(&mut self, req: &DispatchRequest, now_ms: u64) -> (r: Result<Ack, Refusal>)
        ensures
            if req.target_node_id@.len() == 0 {
                &&& final(self)@ == old(self)@
                &&& r is Err
                &&& r->Err_0@ == (RefusalView {
                    code: Code::InvalidArgument,
                    message: "target_node_id required"@,
                })
            } else {
                &&& final(self)@ == (AgentView {
                    dispatched: tcp::wrapping_next(old(self)@.dispatched),
                    ..old(self)@
                })
                &&& r is Ok
                &&& r->Ok_0@ == old(self)@.yes(now_ms)
            },
    {
        if req.target_node_id.as_str().is_empty() {
            return Err(
                Refusal { code: Code::InvalidArgument, message: text("target_node_id required") },
            );
        }
        self.dispatched = next_number(self.dispatched);
        Ok(self.acknowledge(now_ms))
    }

    /// Takes a load report.
    pub fn report_load(&mut self, _report: &LoadReport, now_ms: u64) -> (a: Ack)
        ensures
            final(self)@ == (AgentView {
                reports: tcp::wrapping_next(old(self)@.reports),
                ..old(self)@
            }),
            a@ == old(self)@.yes(now_ms),
    {
        self.reports = next_number(self.reports);
        self.acknowledge(now_ms)
    }

    /// Takes a placement, of which nothing is done yet.
    pub fn place_blocks(&self) -> (a: Ack)
        ensures
            a@ == (AckView { ok: true, err: Seq::empty(), backpressure: None }),
    {
        let a = Ack { ok: true, err: String::new(), backpressure: None };
        assert(a@.err =~= Seq::empty());
        a
    }
}

/// A pressure is carried by every answer from when it is noted until it is no longer
/// recent, and by none after that.
pub proof fn pressure_is_carried(
    a: AgentView,
    signal: BackpressureSignalView,
    at: u64,
    now_ms: u64,
)
    requires
        at <= now_ms,
    ensures
        ({
            let b = AgentView { pressure: Some((signal, at)), ..a };
            &&& now_ms - at < BACKPRESSURE_FRESH_TTL ==> b.yes(now_ms).backpressure == Some(signal)
            &&& now_ms - at >= BACKPRESSURE_FRESH_TTL ==> b.yes(now_ms).backpressure is None
        }),
{
}

} // verus!
