# dns_lattice

An embeddable DNS control plane: a DNS message model with wire encoding and
decoding, exact/suffix/wildcard domain matching, split-DNS routing policy,
Fake IP address pools, and a resolver that routes queries (optionally through
a caller-supplied route hook), caches answers per effective upstream group,
fails over across a group's backends, and reports structured events.

## Layout

- `src/` is the library, written in Verus and verified: every executable
  function carries a contract over mathematical models (`Seq`, `Map`, views
  of the library's types), and the library-wide properties are public proof
  functions (`lemma_*`). Properties across several calls are stated per
  call in a form that chains: one lemma establishes a fact (an answer is
  cached, a mapping is held), others show which calls keep it, and one says
  what it gives (the cached answer is served, the mapping is found or
  reused); a failed resolution is stated over its whole run of steps.
  - `name`, `wire`, `record`, `message`: the DNS data model and its wire
    format; `roundtrip` proves that decoding an encoded message gives the
    message back.
  - `matcher`, `policy`: domain patterns, precedence, and split-DNS routing.
  - `fakeip`: per-family Fake IP pools with deterministic probing, reuse,
    expiry, and least-recently-used eviction. A pool built without a TTL
    keeps its mappings until evicted, but has no DNS TTL to advertise: a
    resolver using it fails every Fake IP answer with `FakeIpTtlOutOfRange`.
  - `engine`: the answer policy (failover classes, cache lifetimes, local
    Fake IP and reverse answers).
  - `resolver`: the resolver's state and its per-query state machine; the
    caller performs each hook and backend call and hands back the result.
  - `upstream`, `server`: transport framing, DoH GET targets, failure
    classification, SERVFAIL synthesis, and UDP truncation.
  - `hooks`, `observability`: the route-hook request/decision types and the
    resolver's events.
- `tests/` exercises the library through its public API.
- `app/` is the asynchronous networking around the library: the resolver
  loop over real transports (UDP, TCP, DoT, DoH, DoQ), the inbound servers,
  and the async route-hook trait.
