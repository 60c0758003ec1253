//! Client requests and the latency classes they are admitted under.
use vstd::prelude::*;

use crate::ids::RequestId;
use crate::sampling::{SamplingParams, SamplingView};
use crate::{Tick, TokenId};

verus! {

/// Latency class a request is admitted under.
///
/// The scheduler does not treat these as raw priorities — a `Batch` request
/// that has been waiting long enough will outrank a freshly arrived
/// `Interactive` one. The class sets the deadline, not the rank.
#[derive(Debug, Clone, Copy, PartialEq, Eq, PartialOrd, Ord, Hash, Structural)]
pub enum ServiceClass {
    /// Chat and agent traffic. Tight time-to-first-token budget.
    Interactive,
    /// Throughput-oriented work that still has a deadline.
    Batch,
    /// Best effort. Runs only on capacity nothing else claimed.
    Background,
}

impl ServiceClass {
    pub open spec fn ttft_budget(self) -> Tick {
        match self {
            ServiceClass::Interactive => 500_000,
            ServiceClass::Batch => 10_000_000,
            ServiceClass::Background => 120_000_000,
        }
    }

    pub open spec fn itl_budget(self) -> Tick {
        match self {
            ServiceClass::Interactive => 50_000,
            ServiceClass::Batch => 200_000,
            ServiceClass::Background => 1_000_000,
        }
    }

    /// Time-to-first-token budget in microseconds.
    pub fn ttft_budget_us(self) -> (r: Tick)
        ensures
            r == self.ttft_budget(),
    {
        match self {
            ServiceClass::Interactive => 500_000,  // 500 ms
            ServiceClass::Batch => 10_000_000,  // 10 s
            ServiceClass::Background => 120_000_000,  // 2 min
        }
    }

    /// Per-token budget once generation has started, in microseconds.
    pub fn itl_budget_us(self) -> (r: Tick)
        ensures
            r == self.itl_budget(),
    {
        match self {
            ServiceClass::Interactive => 50_000,  // 50 ms
            ServiceClass::Batch => 200_000,  // 200 ms
            ServiceClass::Background => 1_000_000,  // 1 s
        }
    }
}

/// Microseconds from `now` to `deadline`, negative once it has passed.
pub open spec fn slack_spec(deadline: Tick, now: Tick) -> i64 {
    (deadline as i64).wrapping_sub(now as i64)
}

/// Microseconds from `now` to `deadline`, negative once it has passed.
pub fn slack(deadline: Tick, now: Tick) -> (r: i64)
    ensures
        r == slack_spec(deadline, now),
{
    (#[verifier::truncate] (deadline as i64)).wrapping_sub(#[verifier::truncate] (now as i64))
}

/// Slack is the distance to the deadline for every tick of the first three
/// hundred thousand years.
pub proof fn law_slack_is_the_distance_to_the_deadline(deadline: Tick, now: Tick)
    requires
        deadline <= i64::MAX,
        now <= i64::MAX,
    ensures
        slack_spec(deadline, now) == deadline - now,
{
}

/// One admitted client request.
#[derive(Debug, Clone)]
pub struct Request {
    pub id: RequestId,
    /// Isolation boundary. Cached prefix blocks are never shared across
    /// tenants, even when the token content is byte-identical.
    pub tenant: String,
    pub prompt: Vec<TokenId>,
    pub params: SamplingParams,
    pub class: ServiceClass,
    /// When the request entered the waiting queue.
    pub arrived_at: Tick,
    /// Number of independent sequences to generate.
    pub n: usize,
}

/// A request as values.
#[verifier::ext_equal]
pub struct RequestView {
    pub id: RequestId,
    pub tenant: Seq<char>,
    pub prompt: Seq<TokenId>,
    pub params: SamplingView,
    pub class: ServiceClass,
    pub arrived_at: Tick,
    pub n: usize,
}

impl View for Request {
    type V = RequestView;

    open spec fn view(&self) -> RequestView {
        RequestView {
            id: self.id,
            tenant: self.tenant@,
            prompt: self.prompt@,
            params: self.params@,
            class: self.class,
            arrived_at: self.arrived_at,
            n: self.n,
        }
    }
}

impl RequestView {
    pub open spec fn ttft_deadline(self) -> Tick {
        self.arrived_at.saturating_add(self.class.ttft_budget())
    }
}

impl Request {
    pub fn new(id: RequestId, tenant: String, prompt: Vec<TokenId>, arrived_at: Tick) -> (r: Self)
        ensures
            r@ == (RequestView {
                id,
                tenant: tenant@,
                prompt: prompt@,
                params: SamplingView::default_spec(),
                class: ServiceClass::Interactive,
                arrived_at,
                n: 1,
            }),
    {
        Request {
            id,
            tenant,
            prompt,
            params: SamplingParams::default(),
            class: ServiceClass::Interactive,
            arrived_at,
            n: 1,
        }
    }

    pub fn with_params(self, params: SamplingParams) -> (r: Self)
        ensures
            r@ == (RequestView { params: params@, ..self@ }),
    {
        Request {
            id: self.id,
            tenant: self.tenant,
            prompt: self.prompt,
            params,
            class: self.class,
            arrived_at: self.arrived_at,
            n: self.n,
        }
    }

    pub fn with_class(self, class: ServiceClass) -> (r: Self)
        ensures
            r@ == (RequestView { class, ..self@ }),
    {
        Request {
            id: self.id,
            tenant: self.tenant,
            prompt: self.prompt,
            params: self.params,
            class,
            arrived_at: self.arrived_at,
            n: self.n,
        }
    }

    pub fn prompt_len(&self) -> (r: usize)
        ensures
            r == self@.prompt.len(),
    {
        self.prompt.len()
    }

    /// Absolute tick by which this request must emit its first token.
    pub fn ttft_deadline(&self) -> (r: Tick)
        ensures
            r == self@.ttft_deadline(),
    {
        self.arrived_at.saturating_add(self.class.ttft_budget_us())
    }

    /// Microseconds of slack left against the TTFT deadline, negative once missed.
    pub fn ttft_slack_us(&self, now: Tick) -> (r: i64)
        ensures
            r == slack_spec(self@.ttft_deadline(), now),
    {
        slack(self.ttft_deadline(), now)
    }
}

/// A class sets its budgets in microseconds: half a second, ten seconds and two
/// minutes to the first token, and 50, 200 and 1000 milliseconds from one token to
/// the next. A request's slack is what is left of the first, counted from its
/// arrival.
pub proof fn law_a_request_has_its_class_budget(r: RequestView, now: Tick)
    ensures
        r.class.ttft_budget() == match r.class {
            ServiceClass::Interactive => 500_000int,
            ServiceClass::Batch => 10_000_000,
            ServiceClass::Background => 120_000_000,
        },
        r.class.itl_budget() == match r.class {
            ServiceClass::Interactive => 50_000int,
            ServiceClass::Batch => 200_000,
            ServiceClass::Background => 1_000_000,
        },
        r.arrived_at + r.class.ttft_budget() > u64::MAX ==> r.ttft_deadline() == u64::MAX,
        r.arrived_at + 120_000_000 <= i64::MAX && now <= i64::MAX ==> {
            &&& r.ttft_deadline() - r.arrived_at == match r.class {
                ServiceClass::Interactive => 500_000int,
                ServiceClass::Batch => 10_000_000,
                ServiceClass::Background => 120_000_000,
            }
            &&& slack_spec(r.ttft_deadline(), now) + now - r.arrived_at == match r.class {
                ServiceClass::Interactive => 500_000int,
                ServiceClass::Batch => 10_000_000,
                ServiceClass::Background => 120_000_000,
            }
        },
{
}

} // verus!
