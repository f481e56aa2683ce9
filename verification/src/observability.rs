//! Optional, non-authoritative resolver observability.
//!
//! An [`ObservabilitySink`] receives immutable [`ObserveEvent`] values after
//! resolver transitions. Sinks are advisory only: a sink cannot alter
//! routing, caching, retries, or answers. Events contain no client address,
//! resolver or backend handle, or error text.

use vstd::prelude::*;

use crate::message::Rcode;
use crate::name::Name;
use crate::policy::UpstreamGroupId;
use crate::record::{Class, RecordType};

verus! {

/// A synchronous, thread-safe observer for resolver events.
///
/// Implementations must not re-enter the same resolver. The resolver invokes
/// this callback without holding its cache lock; a callback panic is ignored.
pub trait ObservabilitySink: Send + Sync {
    /// Receives one immutable, ordered event.
    fn record(&self, event: &ObserveEvent);
}

/// Immutable event emitted by an opted-in resolver.
#[derive(Debug, Clone, PartialEq, Eq)]
pub enum ObserveEvent {
    /// A query entered the resolver. Identity fields are absent only when it
    /// has no first question and therefore cannot be routed.
    QueryReceived {
        /// Opaque identifier correlating every event emitted for this query.
        correlation_id: u64,
        /// The first question's name, absent only when unroutable.
        name: Option<Name>,
        /// The first question's record type, absent only when unroutable.
        rtype: Option<RecordType>,
        /// The first question's class, absent only when unroutable.
        class: Option<Class>,
    },
    /// Fake IP returned a terminal local answer.
    FakeIpTerminal {
        /// Opaque identifier correlating every event emitted for this query.
        correlation_id: u64,
    },
    /// Static split-DNS selected a tentative group, if any.
    StaticRoute {
        /// Opaque identifier correlating every event emitted for this query.
        correlation_id: u64,
        /// The tentatively selected group, or `None` if no policy matched.
        group: Option<UpstreamGroupId>,
    },
    /// The optional hook's selection-only decision.
    HookDecision {
        /// Opaque identifier correlating every event emitted for this query.
        correlation_id: u64,
        /// The hook's bounded outcome.
        decision: HookObserveDecision,
    },
    /// The route-scoped cache supplied an answer.
    CacheHit {
        /// Opaque identifier correlating every event emitted for this query.
        correlation_id: u64,
        /// The group whose cache scope was consulted.
        group: UpstreamGroupId,
    },
    /// The route-scoped cache did not supply an answer.
    CacheMiss {
        /// Opaque identifier correlating every event emitted for this query.
        correlation_id: u64,
        /// The group whose cache scope was consulted.
        group: UpstreamGroupId,
    },
    /// One backend is about to be called; its index is registration order.
    UpstreamAttempt {
        /// Opaque identifier correlating every event emitted for this query.
        correlation_id: u64,
        /// The group the attempted backend belongs to.
        group: UpstreamGroupId,
        /// The backend's position within the group's registration order.
        backend_index: usize,
    },
    /// One backend completed without exposing an error string or handle.
    UpstreamOutcome {
        /// Opaque identifier correlating every event emitted for this query.
        correlation_id: u64,
        /// The group the completed backend belongs to.
        group: UpstreamGroupId,
        /// The backend's position within the group's registration order.
        backend_index: usize,
        /// The bounded result of the call.
        outcome: UpstreamObserveOutcome,
    },
    /// Resolution returned an answer.
    Completed {
        /// Opaque identifier correlating every event emitted for this query.
        correlation_id: u64,
        /// The response code of the returned answer.
        rcode: Rcode,
    },
    /// Resolution returned an error classified without carrying its text.
    Failed {
        /// Opaque identifier correlating every event emitted for this query.
        correlation_id: u64,
        /// The classified failure, without its underlying error text.
        failure: ObserveFailure,
    },
    /// Reserved for a future explicit cancellation boundary. Dropped resolve
    /// futures are not required to emit a terminal event in this stage.
    Cancelled {
        /// Opaque identifier correlating every event emitted for this query.
        correlation_id: u64,
    },
}

/// Bounded result of one optional route-hook call.
#[derive(Debug, Clone, PartialEq, Eq)]
pub enum HookObserveDecision {
    /// The hook retained static routing.
    Abstain,
    /// The hook selected this group.
    Use(UpstreamGroupId),
    /// The hook returned an error.
    Failed,
}

/// Bounded outcome of one upstream call.
#[derive(Debug, Clone, Copy, PartialEq, Eq)]
pub enum UpstreamObserveOutcome {
    /// The backend returned an answer.
    Success,
    /// The backend failed and resolver failover continues.
    RetryableFailure,
    /// The backend failed and resolver returns immediately.
    Failure,
}

/// Bounded error classification used by [`ObserveEvent::Failed`].
#[derive(Debug, Clone, Copy, PartialEq, Eq)]
pub enum ObserveFailure {
    /// No route, no question, unknown group, or empty group.
    NoRoute,
    /// The route hook failed.
    Hook,
    /// A transport timed out.
    Timeout,
    /// A transport operation failed.
    Transport,
    /// TLS setup or validation failed.
    Tls,
    /// Another resolver error occurred.
    Other,
}

/// The mathematical value of a [`HookObserveDecision`].
pub enum HookDecisionV {
    Abstain,
    Use(Seq<char>),
    Failed,
}

impl View for HookObserveDecision {
    type V = HookDecisionV;

    open spec fn view(&self) -> HookDecisionV {
        match self {
            HookObserveDecision::Abstain => HookDecisionV::Abstain,
            HookObserveDecision::Use(g) => HookDecisionV::Use(g@),
            HookObserveDecision::Failed => HookDecisionV::Failed,
        }
    }
}

/// The mathematical value of an [`ObserveEvent`].
pub enum ObserveEventV {
    QueryReceived {
        correlation_id: u64,
        name: Option<Seq<Seq<u8>>>,
        rtype: Option<RecordType>,
        class: Option<Class>,
    },
    FakeIpTerminal { correlation_id: u64 },
    StaticRoute { correlation_id: u64, group: Option<Seq<char>> },
    HookDecision { correlation_id: u64, decision: HookDecisionV },
    CacheHit { correlation_id: u64, group: Seq<char> },
    CacheMiss { correlation_id: u64, group: Seq<char> },
    UpstreamAttempt { correlation_id: u64, group: Seq<char>, backend_index: usize },
    UpstreamOutcome {
        correlation_id: u64,
        group: Seq<char>,
        backend_index: usize,
        outcome: UpstreamObserveOutcome,
    },
    Completed { correlation_id: u64, rcode: Rcode },
    Failed { correlation_id: u64, failure: ObserveFailure },
    Cancelled { correlation_id: u64 },
}

impl View for ObserveEvent {
    type V = ObserveEventV;

    open spec fn view(&self) -> ObserveEventV {
        match self {
            ObserveEvent::QueryReceived { correlation_id, name, rtype, class } => {
                ObserveEventV::QueryReceived {
                    correlation_id: *correlation_id,
                    name: match name {
                        Some(n) => Some(n@),
                        None => None,
                    },
                    rtype: *rtype,
                    class: *class,
                }
            },
            ObserveEvent::FakeIpTerminal { correlation_id } => ObserveEventV::FakeIpTerminal {
                correlation_id: *correlation_id,
            },
            ObserveEvent::StaticRoute { correlation_id, group } => ObserveEventV::StaticRoute {
                correlation_id: *correlation_id,
                group: match group {
                    Some(g) => Some(g@),
                    None => None,
                },
            },
            ObserveEvent::HookDecision { correlation_id, decision } => ObserveEventV::HookDecision {
                correlation_id: *correlation_id,
                decision: decision@,
            },
            ObserveEvent::CacheHit { correlation_id, group } => ObserveEventV::CacheHit {
                correlation_id: *correlation_id,
                group: group@,
            },
            ObserveEvent::CacheMiss { correlation_id, group } => ObserveEventV::CacheMiss {
                correlation_id: *correlation_id,
                group: group@,
            },
            ObserveEvent::UpstreamAttempt { correlation_id, group, backend_index } => {
                ObserveEventV::UpstreamAttempt {
                    correlation_id: *correlation_id,
                    group: group@,
                    backend_index: *backend_index,
                }
            },
            ObserveEvent::UpstreamOutcome { correlation_id, group, backend_index, outcome } => {
                ObserveEventV::UpstreamOutcome {
                    correlation_id: *correlation_id,
                    group: group@,
                    backend_index: *backend_index,
                    outcome: *outcome,
                }
            },
            ObserveEvent::Completed { correlation_id, rcode } => ObserveEventV::Completed {
                correlation_id: *correlation_id,
                rcode: *rcode,
            },
            ObserveEvent::Failed { correlation_id, failure } => ObserveEventV::Failed {
                correlation_id: *correlation_id,
                failure: *failure,
            },
            ObserveEvent::Cancelled { correlation_id } => ObserveEventV::Cancelled {
                correlation_id: *correlation_id,
            },
        }
    }
}

/// The views of a sequence of events.
pub open spec fn events_view(v: Seq<ObserveEvent>) -> Seq<ObserveEventV> {
    v.map_values(|e: ObserveEvent| e@)
}

/// The correlation id an event carries.
pub open spec fn correlation_of(e: ObserveEventV) -> u64 {
    match e {
        ObserveEventV::QueryReceived { correlation_id, .. } => correlation_id,
        ObserveEventV::FakeIpTerminal { correlation_id } => correlation_id,
        ObserveEventV::StaticRoute { correlation_id, .. } => correlation_id,
        ObserveEventV::HookDecision { correlation_id, .. } => correlation_id,
        ObserveEventV::CacheHit { correlation_id, .. } => correlation_id,
        ObserveEventV::CacheMiss { correlation_id, .. } => correlation_id,
        ObserveEventV::UpstreamAttempt { correlation_id, .. } => correlation_id,
        ObserveEventV::UpstreamOutcome { correlation_id, .. } => correlation_id,
        ObserveEventV::Completed { correlation_id, .. } => correlation_id,
        ObserveEventV::Failed { correlation_id, .. } => correlation_id,
        ObserveEventV::Cancelled { correlation_id } => correlation_id,
    }
}

/// Every event of `evs` carries correlation id `cid`.
pub open spec fn all_correlated(evs: Seq<ObserveEventV>, cid: u64) -> bool {
    forall|i: int| 0 <= i < evs.len() ==> correlation_of(#[trigger] evs[i]) == cid
}

} // verus!
