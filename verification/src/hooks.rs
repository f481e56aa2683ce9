//! Caller-supplied dynamic upstream-group selection: the request a route
//! hook sees and the decision it returns.
//!
//! A hook receives the first DNS question and the upstream group
//! tentatively selected by the static split-DNS policy. It can choose a
//! registered group with [`RouteDecision::Use`] or keep the static candidate
//! with [`RouteDecision::Abstain`]. Hooks neither resolve DNS nor own cache,
//! backend, Fake IP, server, or networking state.

use vstd::prelude::*;

use crate::message::Question;
use crate::policy::UpstreamGroupId;

verus! {

/// The information available to a route hook for one route-selection
/// decision.
pub struct RouteRequest<'a> {
    question: &'a Question,
    static_group: Option<&'a UpstreamGroupId>,
}

impl<'a> RouteRequest<'a> {
    /// A request for routing `question`, whose static policy candidate is
    /// `static_group`.
    pub fn new(question: &'a Question, static_group: Option<&'a UpstreamGroupId>) -> (r: Self)
        ensures
            r.spec_question() == question,
            r.spec_static_group() == static_group,
    {
        RouteRequest { question, static_group }
    }

    /// Returns the first DNS question being routed.
    pub fn question(&self) -> (r: &'a Question)
        ensures
            r == self.spec_question(),
    {
        self.question
    }

    /// The question being routed.
    pub closed spec fn spec_question(&self) -> &'a Question {
        self.question
    }

    /// Returns the upstream group tentatively selected by static split-DNS
    /// policy, if one exists.
    pub fn static_group(&self) -> (r: Option<&'a UpstreamGroupId>)
        ensures
            r == self.spec_static_group(),
    {
        self.static_group
    }

    /// The static policy candidate.
    pub closed spec fn spec_static_group(&self) -> Option<&'a UpstreamGroupId> {
        self.static_group
    }
}

/// A hook's route-selection result.
#[derive(Debug, Clone, PartialEq, Eq)]
pub enum RouteDecision {
    /// Authoritatively use this upstream group instead of the static
    /// split-DNS candidate.
    Use(UpstreamGroupId),
    /// Keep the static split-DNS candidate unchanged.
    Abstain,
}

/// The mathematical value of a [`RouteDecision`].
pub enum RouteDecisionV {
    Use(Seq<char>),
    Abstain,
}

impl View for RouteDecision {
    type V = RouteDecisionV;

    open spec fn view(&self) -> RouteDecisionV {
        match self {
            RouteDecision::Use(g) => RouteDecisionV::Use(g@),
            RouteDecision::Abstain => RouteDecisionV::Abstain,
        }
    }
}

/// A routing failure reported by a route hook.
///
/// It is not a request to fall back to static routing, retry an upstream,
/// or cache a result.
#[derive(Debug, Clone, PartialEq, Eq)]
pub struct RouteHookError {
    message: String,
}

impl RouteHookError {
    /// The failure's human-readable message.
    pub closed spec fn message_view(&self) -> Seq<char> {
        self.message@
    }

    /// Creates a hook failure with a human-readable message.
    pub fn new(message: &str) -> (r: Self)
        ensures
            r.message_view() == message@,
    {
        RouteHookError { message: message.to_owned() }
    }

    /// The failure's message, as displayed.
    pub fn to_string(&self) -> (r: String)
        ensures
            r@ == self.message_view(),
    {
        self.message.clone()
    }
}

} // verus!
