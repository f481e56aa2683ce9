//! The resolver's state and its per-query decisions.
//!
//! [`ResolverCore`] holds a split-DNS policy, the upstream groups with how
//! many backends each has registered, the route-scoped answer cache, an
//! optional Fake IP pool and policy, and whether a route hook is installed.
//! Each query runs as a small state machine whose caller performs the
//! outside work (hook and backend calls) and supplies the time:
//!
//! 1. [`ResolverCore::begin`]: a terminal Fake IP answer, else the static
//!    split-DNS candidate; with a route hook, the hook is asked next.
//! 2. [`ResolverCore::on_hook_decision`]: the hook's `Use` or `Abstain`
//!    fixes the effective group; a hook failure fails the query.
//! 3. The effective group must be registered with a backend; its cache
//!    scope answers a live cached question, else its first backend is called.
//! 4. [`ResolverCore::on_backend_result`]: an answer is returned (and cached
//!    when cacheable); a timeout, transport, or TLS failure moves on to the
//!    group's next backend; any other failure, or the last backend's, is
//!    returned.
//!
//! Every transition also lists the observability events it emits.

use vstd::prelude::*;

use crate::engine::{
    cacheable_ttl,
    fake_ip_answer,
    fake_ip_post,
    answer_view,
    is_retryable,
    spec_cacheable_ttl,
    spec_is_retryable,
};
use crate::error::Error;
use crate::fakeip::{FakeIpPolicy, FakeIpPool};
use crate::hooks::{RouteDecision, RouteDecisionV, RouteHookError};
use crate::message::{Message, MessageV, Question, QuestionV};
use crate::name::{
    Name,
    label_eq_ci,
    lemma_names_equal_symmetric,
    lemma_names_equal_transitive,
    names_equal,
};
use crate::observability::{
    HookDecisionV,
    HookObserveDecision,
    ObserveEvent,
    ObserveEventV,
    ObserveFailure,
    UpstreamObserveOutcome,
    all_correlated,
    correlation_of,
    events_view,
};
use crate::policy::{SplitDnsPolicy, UpstreamGroupId, opt_group_view, routes_to};
use crate::record::{Class, RecordType};

verus! {

/// The mathematical value of one cached answer.
pub struct CacheEntryV {
    pub group: int,
    pub name: Seq<Seq<u8>>,
    pub rtype: RecordType,
    pub class: Class,
    pub answer: MessageV,
    pub expires_at: u64,
}

/// A cached answer in one group's cache scope, with its absolute expiry
/// time in milliseconds.
struct CacheEntry {
    group: usize,
    name: Name,
    rtype: RecordType,
    class: Class,
    answer: Message,
    expires_at: u64,
}

impl View for CacheEntry {
    type V = CacheEntryV;

    closed spec fn view(&self) -> CacheEntryV {
        CacheEntryV {
            group: self.group as int,
            name: self.name@,
            rtype: self.rtype,
            class: self.class,
            answer: self.answer@,
            expires_at: self.expires_at,
        }
    }
}

/// The views of a sequence of cache entries.
spec fn entries_view(v: Seq<CacheEntry>) -> Seq<CacheEntryV> {
    v.map_values(|e: CacheEntry| e@)
}

/// A cache entry's key is group `g` and question `q`'s name (ignoring ASCII
/// case), type, and class.
pub open spec fn key_matches(e: CacheEntryV, g: int, q: QuestionV) -> bool {
    e.group == g && names_equal(e.name, q.name) && e.rtype == q.qtype && e.class == q.qclass
}

/// Two cache entries have the same key.
pub open spec fn same_key(a: CacheEntryV, b: CacheEntryV) -> bool {
    a.group == b.group && names_equal(a.name, b.name) && a.rtype == b.rtype && a.class == b.class
}

/// No key is cached twice.
pub open spec fn cache_wf(c: Seq<CacheEntryV>) -> bool {
    forall|k1: int, k2: int|
        0 <= k1 < k2 < c.len() ==> !same_key(#[trigger] c[k1], #[trigger] c[k2])
}

/// Entry `k` answers question `q` routed to group `g` at `now`: its key
/// matches and it has not expired.
pub open spec fn cache_hit(c: Seq<CacheEntryV>, g: int, q: QuestionV, now: u64, k: int) -> bool {
    0 <= k < c.len() && key_matches(c[k], g, q) && now < c[k].expires_at
}

/// The entry caching `answer` for question `q` in group `g` until
/// `expires_at`.
pub open spec fn entry_for(g: int, q: QuestionV, answer: MessageV, expires_at: u64) -> CacheEntryV {
    CacheEntryV { group: g, name: q.name, rtype: q.qtype, class: q.qclass, answer, expires_at }
}

/// `c2` is `c` after caching `answer` for `q` in group `g` until
/// `expires_at`: an entry with the same key is replaced, else the entry is
/// added.
pub open spec fn cache_inserted(
    c: Seq<CacheEntryV>,
    c2: Seq<CacheEntryV>,
    g: int,
    q: QuestionV,
    answer: MessageV,
    expires_at: u64,
) -> bool {
    if exists|k: int| 0 <= k < c.len() && key_matches(c[k], g, q) {
        exists|k: int|
            0 <= k < c.len() && key_matches(c[k], g, q) && c2 == c.update(
                k,
                entry_for(g, q, answer, expires_at),
            )
    } else {
        c2 == c.push(entry_for(g, q, answer, expires_at))
    }
}

/// The expiry of an answer cached at `now` for `ttl_secs` seconds.
pub open spec fn cache_expiry(now: u64, ttl_secs: u32) -> u64 {
    crate::fakeip::sat_u64(now + ttl_secs * 1000)
}

/// Two entries matching the same key in a cache with unique keys are the
/// same entry.
proof fn lemma_cache_key_unique(c: Seq<CacheEntryV>, g: int, q: QuestionV, k1: int, k2: int)
    requires
        cache_wf(c),
        0 <= k1 < c.len(),
        0 <= k2 < c.len(),
        key_matches(c[k1], g, q),
        key_matches(c[k2], g, q),
    ensures
        k1 == k2,
{
    if k1 != k2 {
        lemma_names_equal_symmetric(c[k2].name, q.name);
        lemma_names_equal_transitive(c[k1].name, q.name, c[k2].name);
        if k1 < k2 {
            assert(!same_key(c[k1], c[k2]));
        } else {
            lemma_names_equal_symmetric(c[k1].name, c[k2].name);
            assert(!same_key(c[k2], c[k1]));
        }
    }
}

/// One step of resolving a query.
#[derive(Debug)]
pub enum Step {
    /// Resolution is done with this answer.
    Answer(Message),
    /// Resolution is done with this error.
    Fail(Error),
    /// Ask the route hook to choose a group for the first question, given
    /// this static candidate, and hand its decision to
    /// [`ResolverCore::on_hook_decision`].
    AskHook { static_group: Option<UpstreamGroupId> },
    /// Call backend `backend` of group `group` (both in registration
    /// order) and hand its result to [`ResolverCore::on_backend_result`].
    Call { group: usize, backend: usize },
}

/// The mathematical value of a [`Step`].
pub enum StepV {
    Answer(MessageV),
    Fail(Error),
    AskHook { static_group: Option<Seq<char>> },
    Call { group: int, backend: int },
}

impl View for Step {
    type V = StepV;

    open spec fn view(&self) -> StepV {
        match self {
            Step::Answer(m) => StepV::Answer(m@),
            Step::Fail(e) => StepV::Fail(*e),
            Step::AskHook { static_group } => StepV::AskHook {
                static_group: opt_group_view(*static_group),
            },
            Step::Call { group, backend } => StepV::Call {
                group: *group as int,
                backend: *backend as int,
            },
        }
    }
}

/// A step together with the observability events it emits, in order.
#[derive(Debug)]
pub struct Transition {
    /// What to do next.
    pub step: Step,
    /// The events emitted by this transition.
    pub events: Vec<ObserveEvent>,
}

/// Group `i` of `gs` is the group named `g`.
pub open spec fn group_at(gs: Seq<(Seq<char>, usize)>, g: Seq<char>, i: int) -> bool {
    0 <= i < gs.len() && gs[i].0 == g
}

/// No group is registered twice.
pub open spec fn groups_wf(gs: Seq<(Seq<char>, usize)>) -> bool {
    forall|i: int, j: int| 0 <= i < j < gs.len() ==> #[trigger] gs[i].0 != #[trigger] gs[j].0
}

/// Group `g` is registered with at least one backend.
pub open spec fn group_usable(gs: Seq<(Seq<char>, usize)>, g: Option<Seq<char>>) -> bool {
    exists|i: int| #[trigger] group_at(gs, g->0, i) && g is Some && gs[i].1 > 0
}

/// `r` is the index of the effective group `g` when it is registered with
/// at least one backend, else `NoRoute`.
pub open spec fn group_index(gs: Seq<(Seq<char>, usize)>, g: Option<Seq<char>>, r: Result<
    usize,
    Error,
>) -> bool {
    match r {
        Ok(i) => g is Some && group_at(gs, g->0, i as int) && gs[i as int].1 > 0,
        Err(e) => e == Error::NoRoute && !group_usable(gs, g),
    }
}

/// How a failure is reported to observability: its kind, never its text.
pub open spec fn failure_of(e: Error) -> ObserveFailure {
    match e {
        Error::NoRoute => ObserveFailure::NoRoute,
        Error::Hook(_) => ObserveFailure::Hook,
        Error::Timeout => ObserveFailure::Timeout,
        Error::Transport(_) => ObserveFailure::Transport,
        Error::Tls(_) => ObserveFailure::Tls,
        _ => ObserveFailure::Other,
    }
}

/// The event of query `q` entering the resolver.
pub open spec fn received(cid: u64, q: MessageV) -> ObserveEventV {
    if q.questions.len() == 0 {
        ObserveEventV::QueryReceived { correlation_id: cid, name: None, rtype: None, class: None }
    } else {
        ObserveEventV::QueryReceived {
            correlation_id: cid,
            name: Some(q.questions[0].name),
            rtype: Some(q.questions[0].qtype),
            class: Some(q.questions[0].qclass),
        }
    }
}

/// The event of resolution completing with answer `m`.
pub open spec fn completed(cid: u64, m: MessageV) -> ObserveEventV {
    ObserveEventV::Completed { correlation_id: cid, rcode: m.header.rcode }
}

/// The event of resolution failing with `e`.
pub open spec fn failed(cid: u64, e: Error) -> ObserveEventV {
    ObserveEventV::Failed { correlation_id: cid, failure: failure_of(e) }
}

/// The event of backend `b` of group `g` being called.
pub open spec fn attempt(cid: u64, g: Seq<char>, b: int) -> ObserveEventV {
    ObserveEventV::UpstreamAttempt { correlation_id: cid, group: g, backend_index: b as usize }
}

/// The event of backend `b` of group `g` completing with `outcome`.
pub open spec fn outcome(cid: u64, g: Seq<char>, b: int, outcome: UpstreamObserveOutcome) -> ObserveEventV {
    ObserveEventV::UpstreamOutcome {
        correlation_id: cid,
        group: g,
        backend_index: b as usize,
        outcome,
    }
}

/// The static split-DNS candidate for name `n`.
pub open spec fn static_route(policy: SplitDnsPolicy, n: Seq<Seq<u8>>, g: Option<Seq<char>>) -> bool {
    routes_to(policy.patterns(), policy.groups(), policy.default_group_view(), n, g)
}

/// A Fake IP pool with the names it answers for.
struct FakeIp {
    pool: FakeIpPool,
    policy: FakeIpPolicy,
}

/// A resolver's state: routing policy, upstream groups, route-scoped answer
/// cache, optional Fake IP synthesis, and whether a route hook is
/// installed.
pub struct ResolverCore {
    policy: SplitDnsPolicy,
    groups: Vec<(UpstreamGroupId, usize)>,
    cache: Vec<CacheEntry>,
    fake_ip: Option<FakeIp>,
    hook: bool,
}

/// What the resolver does with first question `q` at `now` given the
/// effective group's index `r`: `NoRoute` fails the query; otherwise a live
/// answer from the group's cache scope is returned, or the group's first
/// backend is called. `evs` are the events emitted.
pub open spec fn scoped_step(
    c: ResolverCore,
    q: QuestionV,
    now: u64,
    cid: u64,
    r: Result<usize, Error>,
    s: StepV,
    evs: Seq<ObserveEventV>,
) -> bool {
    match r {
        Err(e) => s == StepV::Fail(e) && evs == seq![failed(cid, e)],
        Ok(i) => if exists|k: int| cache_hit(c.cache(), i as int, q, now, k) {
            exists|k: int|
                {
                    &&& cache_hit(c.cache(), i as int, q, now, k)
                    &&& s == StepV::Answer(c.cache()[k].answer)
                    &&& evs == seq![
                        ObserveEventV::CacheHit { correlation_id: cid, group: c.groups()[i as int].0 },
                        completed(cid, c.cache()[k].answer),
                    ]
                }
        } else {
            &&& s == StepV::Call { group: i as int, backend: 0 }
            &&& evs == seq![
                ObserveEventV::CacheMiss { correlation_id: cid, group: c.groups()[i as int].0 },
                attempt(cid, c.groups()[i as int].0, 0),
            ]
        },
    }
}

/// What the resolver does with first question `q` at `now` once the
/// effective group `g` is known: `NoRoute` unless `g` is registered with a
/// backend; else a live answer from `g`'s cache scope, or `g`'s first
/// backend. `evs` are the events emitted.
pub open spec fn effective_post(
    c: ResolverCore,
    q: QuestionV,
    now: u64,
    cid: u64,
    g: Option<Seq<char>>,
    s: StepV,
    evs: Seq<ObserveEventV>,
) -> bool {
    exists|r: Result<usize, Error>|
        #[trigger] group_index(c.groups(), g, r) && scoped_step(c, q, now, cid, r, s, evs)
}

/// What the resolver does with first question `q` once Fake IP synthesis
/// has passed the query on: it takes the static candidate and, with a route
/// hook, asks the hook; without one, the candidate is the effective group.
pub open spec fn routing_post(
    c: ResolverCore,
    q: QuestionV,
    now: u64,
    cid: u64,
    s: StepV,
    evs: Seq<ObserveEventV>,
) -> bool {
    exists|g: Option<Seq<char>>|
        {
            &&& #[trigger] static_route(c.routing(), q.name, g)
            &&& evs.len() > 0
            &&& evs[0] == ObserveEventV::StaticRoute { correlation_id: cid, group: g }
            &&& if c.hook_enabled() {
                s == StepV::AskHook { static_group: g } && evs.len() == 1
            } else {
                effective_post(c, q, now, cid, g, s, evs.drop_first())
            }
        }
}

/// What starting to resolve query `q` at `now` does: resolver `old` becomes
/// `new`, the first step is `s`, and `evs` are the events emitted.
///
/// A query with no question cannot be routed. With Fake IP synthesis
/// enabled, the pool answers or fails the query first; a query it passes on
/// (and every query without it) is routed.
pub open spec fn begin_post(
    old: ResolverCore,
    new: ResolverCore,
    q: MessageV,
    now: u64,
    cid: u64,
    s: StepV,
    evs: Seq<ObserveEventV>,
) -> bool {
    &&& evs.len() > 0
    &&& evs[0] == received(cid, q)
    &&& if q.questions.len() == 0 {
        &&& s == StepV::Fail(Error::NoRoute)
        &&& new == old
        &&& evs == seq![received(cid, q), failed(cid, Error::NoRoute)]
    } else if old.fake_ip_pool() is None {
        new == old && routing_post(old, q.questions[0], now, cid, s, evs.drop_first())
    } else {
        &&& new.same_but_pool(old)
        &&& exists|fr: Result<Option<MessageV>, Error>|
            {
                &&& #[trigger] fake_ip_post(
                    old.fake_ip_pool()->0,
                    new.fake_ip_pool()->0,
                    old.fake_ip_policy()->0,
                    q,
                    now,
                    fr,
                )
                &&& match fr {
                    Err(e) => s == StepV::Fail(e) && evs == seq![received(cid, q), failed(cid, e)],
                    Ok(Some(m)) => s == StepV::Answer(m) && evs == seq![
                        received(cid, q),
                        ObserveEventV::FakeIpTerminal { correlation_id: cid },
                        completed(cid, m),
                    ],
                    Ok(None) => routing_post(new, q.questions[0], now, cid, s, evs.drop_first()),
                }
            }
    }
}

/// The view of a hook's decision: the decision, or the failure's message.
pub open spec fn decision_view(d: Result<RouteDecision, RouteHookError>) -> Result<
    RouteDecisionV,
    Seq<char>,
> {
    match d {
        Ok(x) => Ok(x@),
        Err(e) => Err(e.message_view()),
    }
}

/// What the hook's decision `d` for query `q` leads to: a failure is a
/// `Hook` error; `Use` makes its group effective; `Abstain` keeps the static
/// candidate.
pub open spec fn hook_post(
    c: ResolverCore,
    q: MessageV,
    now: u64,
    cid: u64,
    d: Result<RouteDecisionV, Seq<char>>,
    s: StepV,
    evs: Seq<ObserveEventV>,
) -> bool {
    &&& evs.len() > 0
    &&& match d {
        Err(m) => {
            &&& s matches StepV::Fail(Error::Hook(x)) && x@ == m
            &&& evs == seq![
                ObserveEventV::HookDecision { correlation_id: cid, decision: HookDecisionV::Failed },
                ObserveEventV::Failed { correlation_id: cid, failure: ObserveFailure::Hook },
            ]
        },
        Ok(RouteDecisionV::Use(h)) => {
            &&& evs[0] == ObserveEventV::HookDecision {
                correlation_id: cid,
                decision: HookDecisionV::Use(h),
            }
            &&& effective_post(c, q.questions[0], now, cid, Some(h), s, evs.drop_first())
        },
        Ok(RouteDecisionV::Abstain) => {
            &&& evs[0] == ObserveEventV::HookDecision {
                correlation_id: cid,
                decision: HookDecisionV::Abstain,
            }
            &&& exists|g: Option<Seq<char>>|
                #[trigger] static_route(c.routing(), q.questions[0].name, g) && effective_post(
                    c,
                    q.questions[0],
                    now,
                    cid,
                    g,
                    s,
                    evs.drop_first(),
                )
        },
    }
}

/// The view of a backend's result.
pub open spec fn result_view(r: Result<Message, Error>) -> Result<MessageV, Error> {
    match r {
        Ok(m) => Ok(m@),
        Err(e) => Err(e),
    }
}

/// What handing backend `backend` of group `group`'s result `res` for query
/// `q` (begun at `now`) does: resolver `old` becomes `new`, the next step is
/// `s`, and `evs` are the events emitted.
///
/// An answer is returned, and cached in the group's scope when it is
/// cacheable. A retryable failure moves on to the group's next backend; any
/// other failure, or a failure of the group's last backend, is returned as
/// is and not cached.
pub open spec fn result_post(
    old: ResolverCore,
    new: ResolverCore,
    q: MessageV,
    now: u64,
    cid: u64,
    group: int,
    backend: int,
    res: Result<MessageV, Error>,
    s: StepV,
    evs: Seq<ObserveEventV>,
) -> bool {
    let gid = old.groups()[group].0;
    match res {
        Ok(m) => {
            &&& s == StepV::Answer(m)
            &&& evs == seq![
                outcome(cid, gid, backend, UpstreamObserveOutcome::Success),
                completed(cid, m),
            ]
            &&& new.same_but_cache(old)
            &&& match spec_cacheable_ttl(m) {
                Some(t) => cache_inserted(
                    old.cache(),
                    new.cache(),
                    group,
                    q.questions[0],
                    m,
                    cache_expiry(now, t),
                ),
                None => new.cache() == old.cache(),
            }
        },
        Err(e) => {
            &&& new == old
            &&& if spec_is_retryable(e) && backend + 1 < old.groups()[group].1 {
                &&& s == StepV::Call { group, backend: backend + 1 }
                &&& evs == seq![
                    outcome(cid, gid, backend, UpstreamObserveOutcome::RetryableFailure),
                    attempt(cid, gid, backend + 1),
                ]
            } else {
                &&& s == StepV::Fail(e)
                &&& evs == seq![
                    outcome(cid, gid, backend, UpstreamObserveOutcome::Failure),
                    failed(cid, e),
                ]
            }
        },
    }
}

impl ResolverCore {
    /// The split-DNS policy.
    pub closed spec fn routing(&self) -> SplitDnsPolicy {
        self.policy
    }

    /// Each registered group with its number of backends, in registration
    /// order.
    pub closed spec fn groups(&self) -> Seq<(Seq<char>, usize)> {
        self.groups@.map_values(|g: (UpstreamGroupId, usize)| (g.0@, g.1))
    }

    /// The cached answers.
    pub closed spec fn cache(&self) -> Seq<CacheEntryV> {
        entries_view(self.cache@)
    }

    /// The Fake IP pool, when synthesis is enabled.
    pub closed spec fn fake_ip_pool(&self) -> Option<FakeIpPool> {
        match self.fake_ip {
            Some(f) => Some(f.pool),
            None => None,
        }
    }

    /// The Fake IP policy, when synthesis is enabled.
    pub closed spec fn fake_ip_policy(&self) -> Option<FakeIpPolicy> {
        match self.fake_ip {
            Some(f) => Some(f.policy),
            None => None,
        }
    }

    /// Whether a route hook is installed.
    pub closed spec fn hook_enabled(&self) -> bool {
        self.hook
    }

    /// No group or cache key is present twice, and the pool is well formed.
    pub closed spec fn wf(&self) -> bool {
        &&& groups_wf(self.groups())
        &&& cache_wf(self.cache())
        &&& (self.fake_ip matches Some(f) ==> f.pool.wf())
    }

    /// The same resolver state apart from the Fake IP pool.
    pub open spec fn same_but_pool(&self, other: ResolverCore) -> bool {
        &&& self.routing() == other.routing()
        &&& self.groups() == other.groups()
        &&& self.cache() == other.cache()
        &&& self.fake_ip_policy() == other.fake_ip_policy()
        &&& self.hook_enabled() == other.hook_enabled()
        &&& (self.fake_ip_pool() is Some <==> other.fake_ip_pool() is Some)
    }

    /// The same resolver state apart from the cache.
    pub open spec fn same_but_cache(&self, other: ResolverCore) -> bool {
        &&& self.routing() == other.routing()
        &&& self.groups() == other.groups()
        &&& self.fake_ip_policy() == other.fake_ip_policy()
        &&& self.fake_ip_pool() == other.fake_ip_pool()
        &&& self.hook_enabled() == other.hook_enabled()
    }

    /// A resolver with this policy, no backends, an empty cache, no Fake IP
    /// synthesis, and no route hook.
    pub fn new(policy: SplitDnsPolicy) -> (r: Self)
        ensures
            r.wf(),
            r.routing() == policy,
            r.groups() == Seq::<(Seq<char>, usize)>::empty(),
            r.cache() == Seq::<CacheEntryV>::empty(),
            r.fake_ip_pool() is None,
            r.fake_ip_policy() is None,
            !r.hook_enabled(),
    {
        let r = ResolverCore {
            policy,
            groups: Vec::new(),
            cache: Vec::new(),
            fake_ip: None,
            hook: false,
        };
        assert(r.groups() =~= Seq::<(Seq<char>, usize)>::empty());
        assert(r.cache() =~= Seq::<CacheEntryV>::empty());
        r
    }

    /// Registers one more backend for `group`, after any already
    /// registered for it, and returns the group's index and the backend's
    /// index within the group.
    pub fn add_backend(&mut self, group: UpstreamGroupId) -> (r: (usize, usize))
        requires
            old(self).wf(),
            old(self).groups().len() < usize::MAX,
            forall|i: int|
                0 <= i < old(self).groups().len() ==> #[trigger] old(self).groups()[i].1
                    < usize::MAX,
        ensures
            final(self).wf(),
            final(self).cache() == old(self).cache(),
            final(self).routing() == old(self).routing(),
            final(self).fake_ip_pool() == old(self).fake_ip_pool(),
            final(self).fake_ip_policy() == old(self).fake_ip_policy(),
            final(self).hook_enabled() == old(self).hook_enabled(),
            if exists|i: int| group_at(old(self).groups(), group@, i) {
                &&& group_at(old(self).groups(), group@, r.0 as int)
                &&& r.1 == old(self).groups()[r.0 as int].1
                &&& final(self).groups() == old(self).groups().update(
                    r.0 as int,
                    (group@, (r.1 + 1) as usize),
                )
            } else {
                &&& r.0 == old(self).groups().len()
                &&& r.1 == 0
                &&& final(self).groups() == old(self).groups().push((group@, 1usize))
            },
    {
        let ghost gs = self.groups();
        let mut i: usize = 0;
        while i < self.groups.len()
            invariant
                *self == *old(self),
                old(self).wf(),
                forall|j: int| 0 <= j < gs.len() ==> #[trigger] gs[j].1 < usize::MAX,
                gs == self.groups(),
                gs.len() == self.groups@.len(),
                forall|j: int|
                    0 <= j < gs.len() ==> #[trigger] gs[j] == (
                        self.groups@[j].0@,
                        self.groups@[j].1,
                    ),
                0 <= i <= gs.len(),
                forall|j: int| 0 <= j < i ==> !#[trigger] group_at(gs, group@, j),
            decreases gs.len() - i,
        {
            if self.groups[i].0 == group {
                let count = self.groups[i].1;
                assert(count == gs[i as int].1);
                self.groups.set(i, (group, count + 1));
                proof {
                    assert(group_at(gs, self.groups@[i as int].0@, i as int));
                    assert(self.groups() =~= gs.update(
                        i as int,
                        (self.groups@[i as int].0@, (count + 1) as usize),
                    ));
                    let ng = self.groups();
                    assert forall|a: int, b: int| 0 <= a < b < ng.len() implies #[trigger] ng[a].0
                        != #[trigger] ng[b].0 by {
                        assert(gs[a].0 != gs[b].0);
                    }
                }
                return (i, count);
            }
            i = i + 1;
        }
        let ghost g = group@;
        self.groups.push((group, 1));
        proof {
            assert(self.groups() =~= gs.push((g, 1usize)));
            let ng = self.groups();
            assert forall|a: int, b: int| 0 <= a < b < ng.len() implies #[trigger] ng[a].0
                != #[trigger] ng[b].0 by {
                if b == ng.len() - 1 {
                    assert(!group_at(gs, g, a));
                } else {
                    assert(gs[a].0 != gs[b].0);
                }
            }
        }
        (i, 0)
    }

    /// Whether another backend can be registered: the group list and every
    /// group's backend count are below the `usize` limit.
    pub fn can_add_backend(&self) -> (r: bool)
        ensures
            r == (self.groups().len() < usize::MAX && forall|i: int|
                0 <= i < self.groups().len() ==> #[trigger] self.groups()[i].1 < usize::MAX),
    {
        let ghost gs = self.groups();
        if self.groups.len() == usize::MAX {
            return false;
        }
        let mut i: usize = 0;
        while i < self.groups.len()
            invariant
                gs == self.groups(),
                gs.len() == self.groups@.len(),
                forall|j: int|
                    0 <= j < gs.len() ==> #[trigger] gs[j] == (
                        self.groups@[j].0@,
                        self.groups@[j].1,
                    ),
                0 <= i <= gs.len(),
                forall|j: int| 0 <= j < i ==> #[trigger] gs[j].1 < usize::MAX,
            decreases gs.len() - i,
        {
            if self.groups[i].1 == usize::MAX {
                assert(gs[i as int].1 == usize::MAX);
                return false;
            }
            i = i + 1;
        }
        true
    }

    /// Enables local Fake IP synthesis from `pool` for names selected by
    /// `policy`, replacing any earlier configuration.
    pub fn set_fake_ip(&mut self, pool: FakeIpPool, policy: FakeIpPolicy)
        requires
            old(self).wf(),
            pool.wf(),
        ensures
            final(self).wf(),
            final(self).routing() == old(self).routing(),
            final(self).groups() == old(self).groups(),
            final(self).cache() == old(self).cache(),
            final(self).hook_enabled() == old(self).hook_enabled(),
            final(self).fake_ip_pool() == Some(pool),
            final(self).fake_ip_policy() == Some(policy),
    {
        self.fake_ip = Some(FakeIp { pool, policy });
    }

    /// Disables Fake IP synthesis and hands back its pool and policy, so
    /// that the caller can use the live pool (allocate, look up, inspect)
    /// and give it back with [`ResolverCore::set_fake_ip`].
    pub fn take_fake_ip(&mut self) -> (r: Option<(FakeIpPool, FakeIpPolicy)>)
        requires
            old(self).wf(),
        ensures
            final(self).wf(),
            final(self).routing() == old(self).routing(),
            final(self).groups() == old(self).groups(),
            final(self).cache() == old(self).cache(),
            final(self).hook_enabled() == old(self).hook_enabled(),
            final(self).fake_ip_pool() is None,
            final(self).fake_ip_policy() is None,
            old(self).fake_ip_pool() is None <==> r is None,
            r matches Some((pool, policy)) ==> pool.wf() && Some(pool) == old(self).fake_ip_pool()
                && Some(policy) == old(self).fake_ip_policy(),
    {
        match self.fake_ip.take() {
            Some(f) => Some((f.pool, f.policy)),
            None => None,
        }
    }

    /// Makes every query routed by the static policy ask the route hook
    /// before its group is fixed.
    pub fn enable_route_hook(&mut self)
        requires
            old(self).wf(),
        ensures
            final(self).wf(),
            final(self).hook_enabled(),
            final(self).routing() == old(self).routing(),
            final(self).groups() == old(self).groups(),
            final(self).cache() == old(self).cache(),
            final(self).fake_ip_pool() == old(self).fake_ip_pool(),
            final(self).fake_ip_policy() == old(self).fake_ip_policy(),
    {
        self.hook = true;
    }

    /// The number of backends registered for group `group`, if it exists.
    pub fn backend_count(&self, group: usize) -> (r: Option<usize>)
        ensures
            group < self.groups().len() ==> r == Some(self.groups()[group as int].1),
            group >= self.groups().len() ==> r is None,
    {
        if group < self.groups.len() {
            Some(self.groups[group].1)
        } else {
            None
        }
    }

    /// The index of the cache entry whose key matches group `g` and
    /// question `q`, if any.
    fn find_cache(&self, g: usize, q: &Question) -> (r: Option<usize>)
        ensures
            r matches Some(k) ==> 0 <= k < self.cache().len() && key_matches(
                self.cache()[k as int],
                g as int,
                q@,
            ),
            r is None ==> forall|k: int|
                0 <= k < self.cache().len() ==> !key_matches(#[trigger] self.cache()[k], g as int, q@),
    {
        let ghost c = self.cache();
        let mut i: usize = 0;
        while i < self.cache.len()
            invariant
                c == self.cache(),
                c.len() == self.cache@.len(),
                forall|j: int| 0 <= j < c.len() ==> #[trigger] c[j] == self.cache@[j]@,
                0 <= i <= c.len(),
                forall|j: int| 0 <= j < i ==> !key_matches(#[trigger] c[j], g as int, q@),
            decreases c.len() - i,
        {
            let e = &self.cache[i];
            if e.group == g && e.name.eq_ignore_case(&q.name) && e.rtype == q.qtype && e.class
                == q.qclass {
                return Some(i);
            }
            i = i + 1;
        }
        None
    }

    /// Caches `answer` for question `q` in group `g` until `expires_at`.
    fn cache_insert(&mut self, g: usize, q: &Question, answer: Message, expires_at: u64)
        requires
            cache_wf(old(self).cache()),
        ensures
            cache_wf(final(self).cache()),
            cache_inserted(old(self).cache(), final(self).cache(), g as int, q@, answer@, expires_at),
            final(self).same_but_cache(*old(self)),
            final(self).fake_ip == old(self).fake_ip,
            final(self).groups == old(self).groups,
    {
        let ghost c = self.cache();
        let ghost e = entry_for(g as int, q@, answer@, expires_at);
        let entry = CacheEntry {
            group: g,
            name: q.name.clone(),
            rtype: q.qtype,
            class: q.qclass,
            answer,
            expires_at,
        };
        assert(entry@ == e);
        match self.find_cache(g, q) {
            Some(k) => {
                self.cache.set(k, entry);
                proof {
                    assert(self.cache() =~= c.update(k as int, e));
                    let nc = self.cache();
                    assert forall|a: int, b: int| 0 <= a < b < nc.len() implies !same_key(
                        #[trigger] nc[a],
                        #[trigger] nc[b],
                    ) by {
                        if a == k {
                            if same_key(nc[a], nc[b]) {
                                lemma_names_equal_symmetric(e.name, c[b].name);
                                lemma_names_equal_transitive(c[k as int].name, e.name, c[b].name);
                                assert(same_key(c[a], c[b]));
                            }
                        } else if b == k {
                            if same_key(nc[a], nc[b]) {
                                lemma_names_equal_symmetric(c[k as int].name, e.name);
                                lemma_names_equal_symmetric(e.name, c[k as int].name);
                                lemma_names_equal_transitive(c[a].name, e.name, c[k as int].name);
                                assert(same_key(c[a], c[b]));
                            }
                        } else {
                            assert(nc[a] == c[a] && nc[b] == c[b]);
                        }
                    }
                    assert(0 <= k < c.len() && key_matches(c[k as int], g as int, q@) && self.cache()
                        == c.update(k as int, e));
                }
            },
            None => {
                self.cache.push(entry);
                proof {
                    assert(self.cache() =~= c.push(e));
                    let nc = self.cache();
                    assert forall|a: int, b: int| 0 <= a < b < nc.len() implies !same_key(
                        #[trigger] nc[a],
                        #[trigger] nc[b],
                    ) by {
                        if b == nc.len() - 1 {
                            assert(!key_matches(c[a], g as int, q@));
                        } else {
                            assert(nc[a] == c[a] && nc[b] == c[b]);
                        }
                    }
                }
            },
        }
    }
}

/// The event of `query` entering the resolver.
fn received_event(cid: u64, query: &Message) -> (r: ObserveEvent)
    ensures
        r@ == received(cid, query@),
{
    proof {
        crate::message::lemma_questions_view(query.questions@);
    }
    if query.questions.len() == 0 {
        ObserveEvent::QueryReceived { correlation_id: cid, name: None, rtype: None, class: None }
    } else {
        let q = &query.questions[0];
        ObserveEvent::QueryReceived {
            correlation_id: cid,
            name: Some(q.name.clone()),
            rtype: Some(q.qtype),
            class: Some(q.qclass),
        }
    }
}

/// The event of resolution failing with `e`.
fn failed_event(cid: u64, e: &Error) -> (r: ObserveEvent)
    ensures
        r@ == failed(cid, *e),
{
    let failure = match e {
        Error::NoRoute => ObserveFailure::NoRoute,
        Error::Hook(_) => ObserveFailure::Hook,
        Error::Timeout => ObserveFailure::Timeout,
        Error::Transport(_) => ObserveFailure::Transport,
        Error::Tls(_) => ObserveFailure::Tls,
        _ => ObserveFailure::Other,
    };
    ObserveEvent::Failed { correlation_id: cid, failure }
}

/// The event of resolution completing with `answer`.
fn completed_event(cid: u64, answer: &Message) -> (r: ObserveEvent)
    ensures
        r@ == completed(cid, answer@),
{
    ObserveEvent::Completed { correlation_id: cid, rcode: answer.header.rcode }
}

/// The event of backend `backend` of group `group` being called.
fn attempt_event(cid: u64, group: UpstreamGroupId, backend: usize) -> (r: ObserveEvent)
    ensures
        r@ == attempt(cid, group@, backend as int),
{
    ObserveEvent::UpstreamAttempt { correlation_id: cid, group, backend_index: backend }
}

/// The event of backend `backend` of group `group` completing with `o`.
fn outcome_event(cid: u64, group: UpstreamGroupId, backend: usize, o: UpstreamObserveOutcome) -> (r:
    ObserveEvent)
    ensures
        r@ == outcome(cid, group@, backend as int, o),
{
    ObserveEvent::UpstreamOutcome { correlation_id: cid, group, backend_index: backend, outcome: o }
}

/// The events `a` then `b`.
fn two_events(a: ObserveEvent, b: ObserveEvent) -> (r: Vec<ObserveEvent>)
    ensures
        events_view(r@) == seq![a@, b@],
{
    let ghost (av, bv) = (a@, b@);
    let mut v = Vec::new();
    v.push(a);
    v.push(b);
    proof {
        assert(events_view(v@) =~= seq![av, bv]);
    }
    v
}

/// A copy of an optional group identifier.
fn clone_group(g: &Option<UpstreamGroupId>) -> (r: Option<UpstreamGroupId>)
    ensures
        opt_group_view(r) == opt_group_view(*g),
{
    match g {
        Some(x) => Some(x.clone()),
        None => None,
    }
}

impl ResolverCore {
    /// The identifier of group `i`.
    fn group_id(&self, i: usize) -> (r: UpstreamGroupId)
        requires
            i < self.groups().len(),
        ensures
            r@ == self.groups()[i as int].0,
    {
        self.groups[i].0.clone()
    }

    /// The static split-DNS candidate for `name`.
    fn static_group(&self, name: &Name) -> (r: Option<UpstreamGroupId>)
        ensures
            static_route(self.routing(), name@, opt_group_view(r)),
    {
        match self.policy.resolve_group(name) {
            Some(g) => Some(g.clone()),
            None => None,
        }
    }

    /// The index of effective group `g`, which must be registered with a
    /// backend.
    fn effective_index(&self, g: &Option<UpstreamGroupId>) -> (r: Result<usize, Error>)
        requires
            self.wf(),
        ensures
            group_index(self.groups(), opt_group_view(*g), r),
    {
        let ghost gs = self.groups();
        let id = match g {
            Some(id) => id,
            None => {
                return Err(Error::NoRoute);
            },
        };
        let mut i: usize = 0;
        let mut found: Option<usize> = None;
        while i < self.groups.len()
            invariant
                gs == self.groups(),
                groups_wf(gs),
                gs.len() == self.groups@.len(),
                forall|j: int|
                    0 <= j < gs.len() ==> #[trigger] gs[j] == (
                        self.groups@[j].0@,
                        self.groups@[j].1,
                    ),
                0 <= i <= gs.len(),
                found is None ==> forall|j: int|
                    0 <= j < i ==> !#[trigger] group_at(gs, id@, j),
                found matches Some(k) ==> group_at(gs, id@, k as int),
            decreases gs.len() - i,
        {
            if found.is_none() && self.groups[i].0 == *id {
                found = Some(i);
            }
            i = i + 1;
        }
        match found {
            Some(k) => if self.groups[k].1 > 0 {
                Ok(k)
            } else {
                proof {
                    assert forall|j: int| group_at(gs, id@, j) implies !(gs[j].1 > 0) by {
                        if j != k {
                            if j < k {
                                assert(gs[j].0 != gs[k as int].0);
                            } else {
                                assert(gs[k as int].0 != gs[j].0);
                            }
                        }
                    }
                }
                Err(Error::NoRoute)
            },
            None => {
                proof {
                    assert(!exists|j: int| group_at(gs, id@, j) && gs[j].1 > 0);
                }
                Err(Error::NoRoute)
            },
        }
    }

    /// The step and events for first question `q` at `now_ms` once the
    /// effective group `g` is known.
    fn effective(&self, q: &Question, now_ms: u64, cid: u64, g: &Option<UpstreamGroupId>) -> (r: (
        Step,
        Vec<ObserveEvent>,
    ))
        requires
            self.wf(),
        ensures
            effective_post(*self, q@, now_ms, cid, opt_group_view(*g), r.0@, events_view(r.1@)),
    {
        let ghost gv = opt_group_view(*g);
        let ghost c = self.cache();
        let ir = self.effective_index(g);
        proof {
            assert(group_index(self.groups(), gv, ir));
        }
        match ir {
            Err(e) => {
                let ghost ev = e;
                let mut evs = Vec::new();
                evs.push(failed_event(cid, &e));
                proof {
                    assert(events_view(evs@) =~= seq![failed(cid, ev)]);
                }
                (Step::Fail(e), evs)
            },
            Ok(i) => {
                proof {
                    assert(i < self.groups().len());
                }
                match self.find_cache(i, q) {
                    Some(k) => {
                        proof {
                            assert(c[k as int] == self.cache@[k as int]@);
                        }
                        if now_ms < self.cache[k].expires_at {
                            let answer = self.cache[k].answer.clone();
                            let hit = ObserveEvent::CacheHit {
                                correlation_id: cid,
                                group: self.group_id(i),
                            };
                            let done = completed_event(cid, &answer);
                            let evs = two_events(hit, done);
                            proof {
                                assert(cache_hit(c, i as int, q@, now_ms, k as int));
                            }
                            return (Step::Answer(answer), evs);
                        }
                        proof {
                            assert forall|j: int| !cache_hit(c, i as int, q@, now_ms, j) by {
                                if cache_hit(c, i as int, q@, now_ms, j) {
                                    lemma_cache_key_unique(c, i as int, q@, j, k as int);
                                }
                            }
                        }
                    },
                    None => {},
                }
                let miss = ObserveEvent::CacheMiss { correlation_id: cid, group: self.group_id(i) };
                let att = attempt_event(cid, self.group_id(i), 0);
                (Step::Call { group: i, backend: 0 }, two_events(miss, att))
            },
        }
    }

    /// The step and events for first question `q` at `now_ms` once Fake IP
    /// synthesis has passed the query on.
    fn routing_step(&self, q: &Question, now_ms: u64, cid: u64) -> (r: (Step, Vec<ObserveEvent>))
        requires
            self.wf(),
        ensures
            routing_post(*self, q@, now_ms, cid, r.0@, events_view(r.1@)),
    {
        let g = self.static_group(&q.name);
        let ghost gv = opt_group_view(g);
        let mut evs = Vec::new();
        evs.push(ObserveEvent::StaticRoute { correlation_id: cid, group: clone_group(&g) });
        proof {
            assert(static_route(self.routing(), q@.name, gv));
        }
        if self.hook {
            proof {
                assert(events_view(evs@).len() == 1);
            }
            (Step::AskHook { static_group: g }, evs)
        } else {
            let (s, mut rest) = self.effective(q, now_ms, cid, &g);
            let ghost rv = rest@;
            let ghost ev0 = evs@[0];
            evs.append(&mut rest);
            proof {
                assert(evs@ =~= seq![ev0] + rv);
                assert(events_view(evs@).drop_first() =~= events_view(rv));
            }
            (s, evs)
        }
    }

    /// Starts resolving `query` at `now_ms` under correlation id
    /// `correlation_id`: a terminal Fake IP answer or failure, else the
    /// static split-DNS candidate followed by the route hook (when one is
    /// installed) or by the effective group's cache scope and first
    /// backend.
    pub fn begin(&mut self, query: &Message, now_ms: u64, correlation_id: u64) -> (r: Transition)
        requires
            old(self).wf(),
        ensures
            final(self).wf(),
            begin_post(
                *old(self),
                *final(self),
                query@,
                now_ms,
                correlation_id,
                r.step@,
                events_view(r.events@),
            ),
    {
        proof {
            crate::message::lemma_questions_view(query.questions@);
        }
        let cid = correlation_id;
        let first = received_event(cid, query);
        let ghost ev0 = first@;
        let mut evs: Vec<ObserveEvent> = Vec::new();
        evs.push(first);
        if query.questions.len() == 0 {
            evs.push(failed_event(cid, &Error::NoRoute));
            proof {
                assert(events_view(evs@) =~= seq![ev0, failed(cid, Error::NoRoute)]);
            }
            return Transition { step: Step::Fail(Error::NoRoute), events: evs };
        }
        let question = &query.questions[0];
        let ghost before = *self;
        let taken = self.fake_ip.take();
        match taken {
            Some(mut f) => {
                let fr = fake_ip_answer(&mut f.pool, &f.policy, query, now_ms);
                let ghost frv = answer_view(fr);
                self.fake_ip = Some(f);
                proof {
                    assert(fake_ip_post(
                        before.fake_ip_pool()->0,
                        self.fake_ip_pool()->0,
                        before.fake_ip_policy()->0,
                        query@,
                        now_ms,
                        frv,
                    ));
                }
                match fr {
                    Err(e) => {
                        evs.push(failed_event(cid, &e));
                        proof {
                            assert(events_view(evs@) =~= seq![ev0, failed(cid, e)]);
                        }
                        return Transition { step: Step::Fail(e), events: evs };
                    },
                    Ok(Some(m)) => {
                        evs.push(ObserveEvent::FakeIpTerminal { correlation_id: cid });
                        evs.push(completed_event(cid, &m));
                        proof {
                            assert(events_view(evs@) =~= seq![
                                ev0,
                                ObserveEventV::FakeIpTerminal { correlation_id: cid },
                                completed(cid, m@),
                            ]);
                        }
                        return Transition { step: Step::Answer(m), events: evs };
                    },
                    Ok(None) => {},
                }
            },
            None => {},
        }
        let (s, mut rest) = self.routing_step(question, now_ms, cid);
        let ghost rv = rest@;
        evs.append(&mut rest);
        proof {
            assert(evs@ =~= seq![evs@[0]] + rv);
            assert(events_view(evs@).drop_first() =~= events_view(rv));
        }
        Transition { step: s, events: evs }
    }

    /// Takes the route hook's decision for `query`, begun at `now_ms` under
    /// `correlation_id`, and returns the next transition: a hook failure
    /// fails the query without falling back to static routing; `Use` makes
    /// its group effective; `Abstain` keeps the static candidate.
    pub fn on_hook_decision(
        &self,
        query: &Message,
        now_ms: u64,
        correlation_id: u64,
        decision: Result<RouteDecision, RouteHookError>,
    ) -> (r: Transition)
        requires
            self.wf(),
            query@.questions.len() > 0,
        ensures
            hook_post(
                *self,
                query@,
                now_ms,
                correlation_id,
                decision_view(decision),
                r.step@,
                events_view(r.events@),
            ),
    {
        proof {
            crate::message::lemma_questions_view(query.questions@);
        }
        let cid = correlation_id;
        let question = &query.questions[0];
        match decision {
            Err(e) => {
                let message = e.to_string();
                let evs = two_events(
                    ObserveEvent::HookDecision {
                        correlation_id: cid,
                        decision: HookObserveDecision::Failed,
                    },
                    ObserveEvent::Failed { correlation_id: cid, failure: ObserveFailure::Hook },
                );
                Transition { step: Step::Fail(Error::Hook(message)), events: evs }
            },
            Ok(RouteDecision::Use(g)) => {
                let mut evs = Vec::new();
                evs.push(
                    ObserveEvent::HookDecision {
                        correlation_id: cid,
                        decision: HookObserveDecision::Use(g.clone()),
                    },
                );
                let ghost ev0 = evs@[0];
                let (s, mut rest) = self.effective(question, now_ms, cid, &Some(g));
                let ghost rv = rest@;
                evs.append(&mut rest);
                proof {
                    assert(evs@ =~= seq![ev0] + rv);
                    assert(events_view(evs@).drop_first() =~= events_view(rv));
                }
                Transition { step: s, events: evs }
            },
            Ok(RouteDecision::Abstain) => {
                let mut evs = Vec::new();
                evs.push(
                    ObserveEvent::HookDecision {
                        correlation_id: cid,
                        decision: HookObserveDecision::Abstain,
                    },
                );
                let ghost ev0 = evs@[0];
                let g = self.static_group(&question.name);
                let (s, mut rest) = self.effective(question, now_ms, cid, &g);
                let ghost rv = rest@;
                evs.append(&mut rest);
                proof {
                    assert(static_route(self.routing(), query@.questions[0].name, opt_group_view(g)));
                    assert(evs@ =~= seq![ev0] + rv);
                    assert(events_view(evs@).drop_first() =~= events_view(rv));
                }
                Transition { step: s, events: evs }
            },
        }
    }

    /// Takes backend `backend` of group `group`'s result for `query`, begun
    /// at `now_ms` under `correlation_id`, and returns the next transition.
    pub fn on_backend_result(
        &mut self,
        query: &Message,
        now_ms: u64,
        correlation_id: u64,
        group: usize,
        backend: usize,
        result: Result<Message, Error>,
    ) -> (r: Transition)
        requires
            old(self).wf(),
            query@.questions.len() > 0,
            group < old(self).groups().len(),
            backend < old(self).groups()[group as int].1,
        ensures
            final(self).wf(),
            result_post(
                *old(self),
                *final(self),
                query@,
                now_ms,
                correlation_id,
                group as int,
                backend as int,
                result_view(result),
                r.step@,
                events_view(r.events@),
            ),
    {
        proof {
            crate::message::lemma_questions_view(query.questions@);
        }
        let cid = correlation_id;
        let gid = self.group_id(group);
        match result {
            Ok(answer) => {
                match cacheable_ttl(&answer) {
                    Some(ttl) => {
                        let expires_at = now_ms.saturating_add(ttl as u64 * 1000);
                        self.cache_insert(group, &query.questions[0], answer.clone(), expires_at);
                    },
                    None => {},
                }
                let evs = two_events(
                    outcome_event(cid, gid, backend, UpstreamObserveOutcome::Success),
                    completed_event(cid, &answer),
                );
                Transition { step: Step::Answer(answer), events: evs }
            },
            Err(e) => {
                let count = self.groups[group].1;
                if is_retryable(&e) && backend + 1 < count {
                    let evs = two_events(
                        outcome_event(
                            cid,
                            gid.clone(),
                            backend,
                            UpstreamObserveOutcome::RetryableFailure,
                        ),
                        attempt_event(cid, gid, backend + 1),
                    );
                    Transition { step: Step::Call { group, backend: backend + 1 }, events: evs }
                } else {
                    let evs = two_events(
                        outcome_event(cid, gid, backend, UpstreamObserveOutcome::Failure),
                        failed_event(cid, &e),
                    );
                    Transition { step: Step::Fail(e), events: evs }
                }
            },
        }
    }
}

/// In a group list with unique names, `group_index` has one result.
proof fn lemma_group_index_unique(
    gs: Seq<(Seq<char>, usize)>,
    g: Option<Seq<char>>,
    r1: Result<usize, Error>,
    r2: Result<usize, Error>,
)
    requires
        groups_wf(gs),
        group_index(gs, g, r1),
        group_index(gs, g, r2),
    ensures
        r1 == r2,
{
    match (r1, r2) {
        (Ok(i1), Ok(i2)) => {
            if i1 < i2 {
                assert(gs[i1 as int].0 != gs[i2 as int].0);
            } else if i2 < i1 {
                assert(gs[i2 as int].0 != gs[i1 as int].0);
            }
        },
        (Ok(i1), Err(_)) => {
            assert(group_at(gs, g->0, i1 as int));
        },
        (Err(_), Ok(i2)) => {
            assert(group_at(gs, g->0, i2 as int));
        },
        _ => {},
    }
}

/// A cacheable answer returned by a backend of group `group` is what a
/// later query for the same question (its name compared ignoring ASCII
/// case, its type, and its class) that is routed to the same group gets
/// back from that group's cache scope, with a cache-hit event, until the
/// answer expires.
pub proof fn lemma_cached_answer_is_served(
    c0: ResolverCore,
    c1: ResolverCore,
    q: MessageV,
    now: u64,
    cid: u64,
    group: int,
    backend: int,
    m: MessageV,
    s1: StepV,
    evs1: Seq<ObserveEventV>,
    q2: QuestionV,
    now2: u64,
    cid2: u64,
    s2: StepV,
    evs2: Seq<ObserveEventV>,
)
    requires
        c0.wf(),
        c1.wf(),
        q.questions.len() > 0,
        0 <= group < c0.groups().len(),
        0 <= backend < c0.groups()[group].1,
        result_post(c0, c1, q, now, cid, group, backend, Ok(m), s1, evs1),
        spec_cacheable_ttl(m) is Some,
        now2 < cache_expiry(now, spec_cacheable_ttl(m)->0),
        names_equal(q.questions[0].name, q2.name),
        q.questions[0].qtype == q2.qtype,
        q.questions[0].qclass == q2.qclass,
        effective_post(c1, q2, now2, cid2, Some(c1.groups()[group].0), s2, evs2),
    ensures
        s2 == StepV::Answer(m),
        evs2 == seq![
            ObserveEventV::CacheHit { correlation_id: cid2, group: c1.groups()[group].0 },
            completed(cid2, m),
        ],
{
    let t = spec_cacheable_ttl(m)->0;
    let qu = q.questions[0];
    let e = entry_for(group, qu, m, cache_expiry(now, t));
    let c = c0.cache();
    let gs = c1.groups();
    let gv = gs[group].0;
    let k = if exists|k: int| 0 <= k < c.len() && key_matches(c[k], group, qu) {
        choose|k: int|
            0 <= k < c.len() && key_matches(c[k], group, qu) && c1.cache() == c.update(k, e)
    } else {
        c.len() as int
    };
    assert(c1.cache()[k] == e);
    assert(cache_hit(c1.cache(), group, q2, now2, k));
    assert(gs == c0.groups());
    assert(group_at(gs, gv, group) && gs[group].1 > 0);
    let r = choose|r: Result<usize, Error>|
        #[trigger] group_index(gs, Some(gv), r) && scoped_step(c1, q2, now2, cid2, r, s2, evs2);
    let i = r->Ok_0 as int;
    assert(r is Ok && i == group) by {
        assert(group_index(gs, Some(gv), r));
        assert(group_at(gs, Some(gv)->0, group));
        assert(group_usable(gs, Some(gv)));
        if r is Ok {
            if i < group {
                assert(gs[i].0 != gs[group].0);
            } else if group < i {
                assert(gs[group].0 != gs[i].0);
            }
        }
    }
    let k2 = choose|k2: int|
        {
            &&& cache_hit(c1.cache(), group, q2, now2, k2)
            &&& s2 == StepV::Answer(c1.cache()[k2].answer)
            &&& evs2 == seq![
                ObserveEventV::CacheHit { correlation_id: cid2, group: gv },
                completed(cid2, c1.cache()[k2].answer),
            ]
        };
    lemma_cache_key_unique(c1.cache(), group, q2, k, k2);
}

/// A backend's result for a query routed to group `group` changes nothing
/// that a query routed to any other group is served: the same question at
/// the same time gets the same step and the same events from the resolver
/// before and after the result was handed over.
pub proof fn lemma_cache_scopes_are_isolated(
    c0: ResolverCore,
    c1: ResolverCore,
    q: MessageV,
    now: u64,
    cid: u64,
    group: int,
    backend: int,
    res: Result<MessageV, Error>,
    s1: StepV,
    evs1: Seq<ObserveEventV>,
    q2: QuestionV,
    now2: u64,
    cid2: u64,
    g2: Option<Seq<char>>,
    s: StepV,
    evs: Seq<ObserveEventV>,
    s2: StepV,
    evs2: Seq<ObserveEventV>,
)
    requires
        c0.wf(),
        c1.wf(),
        q.questions.len() > 0,
        0 <= group < c0.groups().len(),
        0 <= backend < c0.groups()[group].1,
        result_post(c0, c1, q, now, cid, group, backend, res, s1, evs1),
        g2 != Some(c0.groups()[group].0),
        effective_post(c0, q2, now2, cid2, g2, s, evs),
        effective_post(c1, q2, now2, cid2, g2, s2, evs2),
    ensures
        s2 == s,
        evs2 == evs,
{
    let gs = c0.groups();
    assert(c1.groups() == gs);
    let r0 = choose|r: Result<usize, Error>|
        #[trigger] group_index(gs, g2, r) && scoped_step(c0, q2, now2, cid2, r, s, evs);
    let r1 = choose|r: Result<usize, Error>|
        #[trigger] group_index(gs, g2, r) && scoped_step(c1, q2, now2, cid2, r, s2, evs2);
    lemma_group_index_unique(gs, g2, r0, r1);
    if let Ok(iu) = r0 {
        let i = iu as int;
        assert(i != group) by {
            assert(group_at(gs, g2->0, i));
        }
        let a = c0.cache();
        let b = c1.cache();
        // The entries of group `i` are the same before and after.
        assert(forall|k: int| #[trigger]
            cache_hit(b, i, q2, now2, k) ==> cache_hit(a, i, q2, now2, k) && b[k] == a[k]) by {
            assert forall|k: int| #[trigger] cache_hit(b, i, q2, now2, k) implies cache_hit(
                a,
                i,
                q2,
                now2,
                k,
            ) && b[k] == a[k] by {
                if let Ok(m) = res {
                    if let Some(t) = spec_cacheable_ttl(m) {
                        let e = entry_for(group, q.questions[0], m, cache_expiry(now, t));
                        if exists|kk: int| 0 <= kk < a.len() && key_matches(a[kk], group, q.questions[0]) {
                            let kk = choose|kk: int|
                                0 <= kk < a.len() && key_matches(a[kk], group, q.questions[0]) && b
                                    == a.update(kk, e);
                            assert(k != kk);
                        } else {
                            assert(b == a.push(e));
                            assert(k != a.len());
                        }
                    }
                }
            }
        }
        assert(forall|k: int| #[trigger]
            cache_hit(a, i, q2, now2, k) ==> cache_hit(b, i, q2, now2, k)) by {
            assert forall|k: int| #[trigger] cache_hit(a, i, q2, now2, k) implies cache_hit(
                b,
                i,
                q2,
                now2,
                k,
            ) by {
                if let Ok(m) = res {
                    if let Some(t) = spec_cacheable_ttl(m) {
                        let e = entry_for(group, q.questions[0], m, cache_expiry(now, t));
                        if exists|kk: int| 0 <= kk < a.len() && key_matches(a[kk], group, q.questions[0]) {
                            let kk = choose|kk: int|
                                0 <= kk < a.len() && key_matches(a[kk], group, q.questions[0]) && b
                                    == a.update(kk, e);
                            assert(k != kk);
                            assert(b[k] == a[k]);
                        } else {
                            assert(b == a.push(e));
                            assert(b[k] == a[k]);
                        }
                    }
                }
            }
        }
        if exists|k: int| cache_hit(a, i, q2, now2, k) {
            let ka = choose|k: int|
                {
                    &&& cache_hit(a, i, q2, now2, k)
                    &&& s == StepV::Answer(a[k].answer)
                    &&& evs == seq![
                        ObserveEventV::CacheHit { correlation_id: cid2, group: gs[i].0 },
                        completed(cid2, a[k].answer),
                    ]
                };
            assert(cache_hit(b, i, q2, now2, ka));
            let kb = choose|k: int|
                {
                    &&& cache_hit(b, i, q2, now2, k)
                    &&& s2 == StepV::Answer(b[k].answer)
                    &&& evs2 == seq![
                        ObserveEventV::CacheHit { correlation_id: cid2, group: gs[i].0 },
                        completed(cid2, b[k].answer),
                    ]
                };
            assert(cache_hit(a, i, q2, now2, kb) && b[kb] == a[kb]);
            lemma_cache_key_unique(a, i, q2, ka, kb);
        } else {
            assert(!exists|k: int| cache_hit(b, i, q2, now2, k));
        }
    }
}

/// A first event carrying `cid` followed by events that all carry it.
proof fn lemma_correlated_cons(evs: Seq<ObserveEventV>, cid: u64)
    requires
        evs.len() > 0,
        correlation_of(evs[0]) == cid,
        all_correlated(evs.drop_first(), cid),
    ensures
        all_correlated(evs, cid),
{
    assert forall|i: int| 0 <= i < evs.len() implies correlation_of(#[trigger] evs[i]) == cid by {
        if i > 0 {
            assert(evs[i] == evs.drop_first()[i - 1]);
        }
    }
}

/// The events of a transition past the effective group all carry `cid`.
proof fn lemma_effective_correlated(
    c: ResolverCore,
    q: QuestionV,
    now: u64,
    cid: u64,
    g: Option<Seq<char>>,
    s: StepV,
    evs: Seq<ObserveEventV>,
)
    requires
        effective_post(c, q, now, cid, g, s, evs),
    ensures
        all_correlated(evs, cid),
{
    let r = choose|r: Result<usize, Error>|
        #[trigger] group_index(c.groups(), g, r) && scoped_step(c, q, now, cid, r, s, evs);
    if let Ok(i) = r {
        if exists|k: int| cache_hit(c.cache(), i as int, q, now, k) {
            let k = choose|k: int|
                {
                    &&& cache_hit(c.cache(), i as int, q, now, k)
                    &&& s == StepV::Answer(c.cache()[k].answer)
                    &&& evs == seq![
                        ObserveEventV::CacheHit { correlation_id: cid, group: c.groups()[i as int].0 },
                        completed(cid, c.cache()[k].answer),
                    ]
                };
        }
    }
}

/// The events of a transition from the static candidate on all carry
/// `cid`.
proof fn lemma_routing_correlated(
    c: ResolverCore,
    q: QuestionV,
    now: u64,
    cid: u64,
    s: StepV,
    evs: Seq<ObserveEventV>,
)
    requires
        routing_post(c, q, now, cid, s, evs),
    ensures
        all_correlated(evs, cid),
{
    let g = choose|g: Option<Seq<char>>|
        {
            &&& #[trigger] static_route(c.routing(), q.name, g)
            &&& evs.len() > 0
            &&& evs[0] == ObserveEventV::StaticRoute { correlation_id: cid, group: g }
            &&& if c.hook_enabled() {
                s == StepV::AskHook { static_group: g } && evs.len() == 1
            } else {
                effective_post(c, q, now, cid, g, s, evs.drop_first())
            }
        };
    if !c.hook_enabled() {
        lemma_effective_correlated(c, q, now, cid, g, s, evs.drop_first());
    }
    lemma_correlated_cons(evs, cid);
}

/// Every event emitted when a query starts carries the correlation id it
/// was started with.
pub proof fn lemma_begin_events_are_correlated(
    old: ResolverCore,
    new: ResolverCore,
    q: MessageV,
    now: u64,
    cid: u64,
    s: StepV,
    evs: Seq<ObserveEventV>,
)
    requires
        begin_post(old, new, q, now, cid, s, evs),
    ensures
        all_correlated(evs, cid),
{
    if q.questions.len() > 0 {
        if old.fake_ip_pool() is None {
            lemma_routing_correlated(old, q.questions[0], now, cid, s, evs.drop_first());
            lemma_correlated_cons(evs, cid);
        } else {
            let fr = choose|fr: Result<Option<MessageV>, Error>|
                {
                    &&& #[trigger] fake_ip_post(
                        old.fake_ip_pool()->0,
                        new.fake_ip_pool()->0,
                        old.fake_ip_policy()->0,
                        q,
                        now,
                        fr,
                    )
                    &&& match fr {
                        Err(e) => s == StepV::Fail(e) && evs == seq![received(cid, q), failed(cid, e)],
                        Ok(Some(m)) => s == StepV::Answer(m) && evs == seq![
                            received(cid, q),
                            ObserveEventV::FakeIpTerminal { correlation_id: cid },
                            completed(cid, m),
                        ],
                        Ok(None) => routing_post(new, q.questions[0], now, cid, s, evs.drop_first()),
                    }
                };
            if fr == Ok::<Option<MessageV>, Error>(None) {
                lemma_routing_correlated(new, q.questions[0], now, cid, s, evs.drop_first());
                lemma_correlated_cons(evs, cid);
            }
        }
    }
}

/// Every event emitted when a route hook's decision is handed in carries
/// the query's correlation id.
pub proof fn lemma_hook_events_are_correlated(
    c: ResolverCore,
    q: MessageV,
    now: u64,
    cid: u64,
    d: Result<RouteDecisionV, Seq<char>>,
    s: StepV,
    evs: Seq<ObserveEventV>,
)
    requires
        hook_post(c, q, now, cid, d, s, evs),
    ensures
        all_correlated(evs, cid),
{
    match d {
        Err(_) => {},
        Ok(RouteDecisionV::Use(h)) => {
            lemma_effective_correlated(c, q.questions[0], now, cid, Some(h), s, evs.drop_first());
            lemma_correlated_cons(evs, cid);
        },
        Ok(RouteDecisionV::Abstain) => {
            let g = choose|g: Option<Seq<char>>|
                #[trigger] static_route(c.routing(), q.questions[0].name, g) && effective_post(
                    c,
                    q.questions[0],
                    now,
                    cid,
                    g,
                    s,
                    evs.drop_first(),
                );
            lemma_effective_correlated(c, q.questions[0], now, cid, g, s, evs.drop_first());
            lemma_correlated_cons(evs, cid);
        },
    }
}

/// Every event emitted when a backend's result is handed in carries the
/// query's correlation id.
pub proof fn lemma_result_events_are_correlated(
    old: ResolverCore,
    new: ResolverCore,
    q: MessageV,
    now: u64,
    cid: u64,
    group: int,
    backend: int,
    res: Result<MessageV, Error>,
    s: StepV,
    evs: Seq<ObserveEventV>,
)
    requires
        result_post(old, new, q, now, cid, group, backend, res, s, evs),
    ensures
        all_correlated(evs, cid),
{
}

/// Cache entry `e` caches answer `m` for question `q` in group `g` until
/// `exp`.
pub open spec fn entry_caches(e: CacheEntryV, g: int, q: QuestionV, m: MessageV, exp: u64) -> bool {
    key_matches(e, g, q) && e.answer == m && e.expires_at == exp
}

/// Resolver `c` caches answer `m` for question `q` in group `g`'s scope
/// until `exp`.
pub open spec fn caches(c: ResolverCore, g: int, q: QuestionV, m: MessageV, exp: u64) -> bool {
    exists|k: int| 0 <= k < c.cache().len() && #[trigger] entry_caches(c.cache()[k], g, q, m, exp)
}

/// Questions `a` and `b` have the same cache key: name (ignoring ASCII
/// case), type, and class.
pub open spec fn same_question(a: QuestionV, b: QuestionV) -> bool {
    names_equal(a.name, b.name) && a.qtype == b.qtype && a.qclass == b.qclass
}

/// A cacheable answer handed in from a backend of group `group` is cached
/// in that group's scope for the query's question until its expiry.
pub proof fn lemma_result_caches(
    c0: ResolverCore,
    c1: ResolverCore,
    q: MessageV,
    now: u64,
    cid: u64,
    group: int,
    backend: int,
    m: MessageV,
    s: StepV,
    evs: Seq<ObserveEventV>,
)
    requires
        q.questions.len() > 0,
        result_post(c0, c1, q, now, cid, group, backend, Ok(m), s, evs),
        spec_cacheable_ttl(m) is Some,
    ensures
        caches(c1, group, q.questions[0], m, cache_expiry(now, spec_cacheable_ttl(m)->0)),
{
    let t = spec_cacheable_ttl(m)->0;
    let qu = q.questions[0];
    let e = entry_for(group, qu, m, cache_expiry(now, t));
    let c = c0.cache();
    let k = if exists|k: int| 0 <= k < c.len() && key_matches(c[k], group, qu) {
        choose|k: int|
            0 <= k < c.len() && key_matches(c[k], group, qu) && c1.cache() == c.update(k, e)
    } else {
        c.len() as int
    };
    assert(c1.cache()[k] == e);
    assert(names_equal(qu.name, qu.name)) by {
        assert forall|i: int| 0 <= i < qu.name.len() implies #[trigger] label_eq_ci(
            qu.name[i],
            qu.name[i],
        ) by {}
    }
    assert(entry_caches(c1.cache()[k], group, qu, m, cache_expiry(now, t)));
}

/// Starting a query never changes the cache.
pub proof fn lemma_begin_keeps_cache(
    old: ResolverCore,
    new: ResolverCore,
    q: MessageV,
    now: u64,
    cid: u64,
    s: StepV,
    evs: Seq<ObserveEventV>,
)
    requires
        begin_post(old, new, q, now, cid, s, evs),
    ensures
        new.cache() == old.cache(),
{
}

/// A backend's result keeps every cached entry except the one it replaces:
/// only a cacheable answer for the same question in the same group
/// replaces an entry.
pub proof fn lemma_result_keeps_caches(
    c0: ResolverCore,
    c1: ResolverCore,
    q: MessageV,
    now: u64,
    cid: u64,
    group: int,
    backend: int,
    res: Result<MessageV, Error>,
    s: StepV,
    evs: Seq<ObserveEventV>,
    g: int,
    q2: QuestionV,
    m2: MessageV,
    exp: u64,
)
    requires
        q.questions.len() > 0,
        caches(c0, g, q2, m2, exp),
        result_post(c0, c1, q, now, cid, group, backend, res, s, evs),
        !(res is Ok && spec_cacheable_ttl(res->Ok_0) is Some && group == g && same_question(
            q.questions[0],
            q2,
        )),
    ensures
        caches(c1, g, q2, m2, exp),
{
    let c = c0.cache();
    let k = choose|k: int| 0 <= k < c.len() && #[trigger] entry_caches(c[k], g, q2, m2, exp);
    if let Ok(m) = res {
        if let Some(t) = spec_cacheable_ttl(m) {
            let qu = q.questions[0];
            let e = entry_for(group, qu, m, cache_expiry(now, t));
            if exists|kk: int| 0 <= kk < c.len() && key_matches(c[kk], group, qu) {
                let kk = choose|kk: int|
                    0 <= kk < c.len() && key_matches(c[kk], group, qu) && c1.cache() == c.update(
                        kk,
                        e,
                    );
                if kk == k {
                    lemma_names_equal_symmetric(c[k].name, qu.name);
                    lemma_names_equal_transitive(qu.name, c[k].name, q2.name);
                    assert(false);
                }
                assert(c1.cache()[k] == c[k]);
            } else {
                assert(c1.cache()[k] == c[k]);
            }
            assert(entry_caches(c1.cache()[k], g, q2, m2, exp));
        } else {
            assert(entry_caches(c1.cache()[k], g, q2, m2, exp));
        }
    } else {
        assert(entry_caches(c1.cache()[k], g, q2, m2, exp));
    }
}

/// A cached answer is what a query for the same question that reaches the
/// same group gets back, with a cache-hit event, until the entry expires.
/// Chained with [`lemma_result_caches`], [`lemma_begin_keeps_cache`], and
/// [`lemma_result_keeps_caches`], a cacheable answer is served to every
/// later query for its question that reaches its group before it expires,
/// whatever calls came between, unless a later answer for that question in
/// that group replaced it.
pub proof fn lemma_cached_entry_is_served(
    c: ResolverCore,
    g: int,
    q: QuestionV,
    m: MessageV,
    exp: u64,
    q2: QuestionV,
    now: u64,
    cid: u64,
    s: StepV,
    evs: Seq<ObserveEventV>,
)
    requires
        c.wf(),
        0 <= g < c.groups().len(),
        c.groups()[g].1 > 0,
        caches(c, g, q, m, exp),
        same_question(q, q2),
        now < exp,
        effective_post(c, q2, now, cid, Some(c.groups()[g].0), s, evs),
    ensures
        s == StepV::Answer(m),
        evs == seq![
            ObserveEventV::CacheHit { correlation_id: cid, group: c.groups()[g].0 },
            completed(cid, m),
        ],
{
    let gs = c.groups();
    let gv = gs[g].0;
    let cc = c.cache();
    let k = choose|k: int| 0 <= k < cc.len() && #[trigger] entry_caches(cc[k], g, q, m, exp);
    lemma_names_equal_transitive(cc[k].name, q.name, q2.name);
    assert(cache_hit(cc, g, q2, now, k));
    let r = choose|r: Result<usize, Error>|
        #[trigger] group_index(gs, Some(gv), r) && scoped_step(c, q2, now, cid, r, s, evs);
    let i = r->Ok_0 as int;
    assert(r is Ok && i == g) by {
        assert(group_index(gs, Some(gv), r));
        assert(group_at(gs, Some(gv)->0, g));
        assert(group_usable(gs, Some(gv)));
        if r is Ok {
            if i < g {
                assert(gs[i].0 != gs[g].0);
            } else if g < i {
                assert(gs[g].0 != gs[i].0);
            }
        }
    }
    let k2 = choose|k2: int|
        {
            &&& cache_hit(cc, g, q2, now, k2)
            &&& s == StepV::Answer(cc[k2].answer)
            &&& evs == seq![
                ObserveEventV::CacheHit { correlation_id: cid, group: gv },
                completed(cid, cc[k2].answer),
            ]
        };
    lemma_cache_key_unique(cc, g, q2, k, k2);
}

/// One resolution of query `q`, begun at `now` under `cid`: resolver states
/// `cs[0]` to `cs[steps.len()]` and the steps taken, where the first step
/// comes from `begin`, each `AskHook` is followed by the step the hook's
/// decision gives, each `Call` by the step the called backend's result
/// gives, and no step follows an answer or a failure.
pub open spec fn resolution(
    cs: Seq<ResolverCore>,
    steps: Seq<StepV>,
    q: MessageV,
    now: u64,
    cid: u64,
) -> bool {
    &&& steps.len() > 0
    &&& cs.len() == steps.len() + 1
    &&& exists|evs: Seq<ObserveEventV>| #[trigger]
        begin_post(cs[0], cs[1], q, now, cid, steps[0], evs)
    &&& forall|i: int|
        1 <= i < steps.len() ==> #[trigger] follows(cs[i], cs[i + 1], q, now, cid, steps[i - 1], steps[i])
}

/// Step `s` follows step `prev` of a resolution of `q`, taking the resolver
/// from `c0` to `c1`.
pub open spec fn follows(
    c0: ResolverCore,
    c1: ResolverCore,
    q: MessageV,
    now: u64,
    cid: u64,
    prev: StepV,
    s: StepV,
) -> bool {
    match prev {
        StepV::AskHook { .. } => c1 == c0 && exists|d: Result<RouteDecisionV, Seq<char>>, evs: Seq<ObserveEventV>| #[trigger]
            hook_post(c0, q, now, cid, d, s, evs),
        StepV::Call { group, backend } => exists|res: Result<MessageV, Error>, evs: Seq<ObserveEventV>| #[trigger]
            result_post(c0, c1, q, now, cid, group, backend, res, s, evs),
        _ => false,
    }
}

/// From step `i` on, a resolution that ends in a failure never changes the
/// cache.
proof fn lemma_failed_run_keeps_cache(
    cs: Seq<ResolverCore>,
    steps: Seq<StepV>,
    q: MessageV,
    now: u64,
    cid: u64,
    i: int,
)
    requires
        resolution(cs, steps, q, now, cid),
        steps.last() is Fail,
        1 <= i <= steps.len(),
    ensures
        cs[steps.len() as int].cache() == cs[i].cache(),
    decreases steps.len() - i,
{
    if i < steps.len() {
        assert(follows(cs[i], cs[i + 1], q, now, cid, steps[i - 1], steps[i]));
        if let StepV::Call { group, backend } = steps[i - 1] {
            let (res, evs) = choose|res: Result<MessageV, Error>, evs: Seq<ObserveEventV>|
                #[trigger] result_post(cs[i], cs[i + 1], q, now, cid, group, backend, res, steps[i], evs);
            if res is Ok {
                // An answer ends the resolution, which here ends in a failure.
                let j = i + 1;
                if j < steps.len() {
                    assert(follows(cs[j], cs[j + 1], q, now, cid, steps[j - 1], steps[j]));
                }
                assert(false);
            }
        }
        lemma_failed_run_keeps_cache(cs, steps, q, now, cid, i + 1);
    }
}

/// A resolution that ends in a failure leaves the answer cache as it was:
/// no error is ever cached, and nothing else is stored on the way.
pub proof fn lemma_failed_resolution_keeps_cache(
    cs: Seq<ResolverCore>,
    steps: Seq<StepV>,
    q: MessageV,
    now: u64,
    cid: u64,
)
    requires
        resolution(cs, steps, q, now, cid),
        steps.last() is Fail,
    ensures
        cs.last().cache() == cs[0].cache(),
{
    let evs0 = choose|evs: Seq<ObserveEventV>| #[trigger]
        begin_post(cs[0], cs[1], q, now, cid, steps[0], evs);
    lemma_begin_keeps_cache(cs[0], cs[1], q, now, cid, steps[0], evs0);
    lemma_failed_run_keeps_cache(cs, steps, q, now, cid, 1);
}

/// Resolver `c0` becomes `c1` by one step of resolving some query that
/// does not store an answer for question `q` in group `g`: a query starts,
/// a hook's decision is handed in (which changes nothing), or a backend's
/// result is handed in that is not a cacheable answer for `q` in `g`.
pub open spec fn step_sparing(c0: ResolverCore, c1: ResolverCore, g: int, q: QuestionV) -> bool {
    ||| exists|q2: MessageV, now: u64, cid: u64, s: StepV, evs: Seq<ObserveEventV>|
        #[trigger] begin_post(c0, c1, q2, now, cid, s, evs)
    ||| c1 == c0
    ||| exists|
        q2: MessageV,
        now: u64,
        cid: u64,
        group: int,
        backend: int,
        res: Result<MessageV, Error>,
        s: StepV,
        evs: Seq<ObserveEventV>,
    |
        {
            &&& #[trigger] result_post(c0, c1, q2, now, cid, group, backend, res, s, evs)
            &&& q2.questions.len() > 0
            &&& !(res is Ok && spec_cacheable_ttl(res->Ok_0) is Some && group == g
                && same_question(q2.questions[0], q))
        }
}

/// An answer cached for question `q` in group `g` stays cached through any
/// run of resolution steps, of any queries, that store no other answer for
/// `q` in `g`; with [`lemma_cached_entry_is_served`] it is served to every
/// query for `q` reaching `g` until it expires.
pub proof fn lemma_cache_entry_survives_steps(
    cs: Seq<ResolverCore>,
    g: int,
    q: QuestionV,
    m: MessageV,
    exp: u64,
)
    requires
        cs.len() > 0,
        caches(cs[0], g, q, m, exp),
        forall|i: int| 0 <= i < cs.len() - 1 ==> #[trigger] step_sparing(cs[i], cs[i + 1], g, q),
    ensures
        caches(cs.last(), g, q, m, exp),
    decreases cs.len(),
{
    if cs.len() > 1 {
        let init = cs.drop_last();
        assert forall|i: int| 0 <= i < init.len() - 1 implies #[trigger] step_sparing(
            init[i],
            init[i + 1],
            g,
            q,
        ) by {
            assert(init[i] == cs[i] && init[i + 1] == cs[i + 1]);
            assert(step_sparing(cs[i], cs[i + 1], g, q));
        }
        lemma_cache_entry_survives_steps(init, g, q, m, exp);
        let j = cs.len() - 2;
        let c0 = cs[j];
        let c1 = cs[j + 1];
        assert(init.last() == c0);
        assert(step_sparing(c0, c1, g, q));
        if exists|q2: MessageV, now: u64, cid: u64, s: StepV, evs: Seq<ObserveEventV>|
            #[trigger] begin_post(c0, c1, q2, now, cid, s, evs) {
            let (q2, now, cid, s, evs) = choose|
                q2: MessageV,
                now: u64,
                cid: u64,
                s: StepV,
                evs: Seq<ObserveEventV>,
            | #[trigger] begin_post(c0, c1, q2, now, cid, s, evs);
            lemma_begin_keeps_cache(c0, c1, q2, now, cid, s, evs);
            let k = choose|k: int| 0 <= k < c0.cache().len() && #[trigger] entry_caches(
                c0.cache()[k],
                g,
                q,
                m,
                exp,
            );
            assert(entry_caches(c1.cache()[k], g, q, m, exp));
        } else if c1 == c0 {
        } else {
            let (q2, now, cid, group, backend, res, s, evs) = choose|
                q2: MessageV,
                now: u64,
                cid: u64,
                group: int,
                backend: int,
                res: Result<MessageV, Error>,
                s: StepV,
                evs: Seq<ObserveEventV>,
            |
                {
                    &&& #[trigger] result_post(c0, c1, q2, now, cid, group, backend, res, s, evs)
                    &&& q2.questions.len() > 0
                    &&& !(res is Ok && spec_cacheable_ttl(res->Ok_0) is Some && group == g
                        && same_question(q2.questions[0], q))
                };
            lemma_result_keeps_caches(
                c0,
                c1,
                q2,
                now,
                cid,
                group,
                backend,
                res,
                s,
                evs,
                g,
                q,
                m,
                exp,
            );
        }
    }
}

} // verus!
