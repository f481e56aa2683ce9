//! A DNS control-plane library: DNS message model with wire encode/decode,
//! domain matching, split-DNS policy, Fake IP address pools, and the
//! resolver's routing, caching, and failover decisions.

pub mod error;
pub mod name;
pub mod wire;
pub mod record;
pub mod message;
pub mod roundtrip;
pub mod matcher;
pub mod policy;
pub mod fakeip;
pub mod engine;
pub mod resolver;
pub mod upstream;
pub mod server;
pub mod hooks;
pub mod observability;

pub use engine::ReverseAddress;
pub use resolver::{ResolverCore, Step, Transition};
pub use error::{Error, Result};
pub use fakeip::{FakeIpPolicy, FakeIpPolicyBuilder, FakeIpPool, FakeIpPoolBuilder};
pub use hooks::{RouteDecision, RouteHookError, RouteRequest};
pub use matcher::{DomainMatcher, DomainPattern};
pub use message::{Header, Message, Opcode, Question, Rcode, ResourceRecord};
pub use name::Name;
pub use observability::{
    HookObserveDecision, ObservabilitySink, ObserveEvent, ObserveFailure, UpstreamObserveOutcome,
};
pub use policy::{SplitDnsPolicy, SplitDnsPolicyBuilder, UpstreamGroupId};
pub use record::{Class, RData, RecordType};
pub use upstream::{DohMethod, UdpReply};
