//! Split-DNS policy: which upstream group answers a query for a given name.

use vstd::prelude::*;

use crate::matcher::{DomainMatcher, DomainPattern, PatternV, any_match, is_best};
use crate::name::Name;

verus! {

/// An opaque identifier for an upstream group.
///
/// The resolver owns what a group actually contains; the policy only needs
/// something comparable to route to.
#[derive(Debug, Hash)]
pub struct UpstreamGroupId(String);

impl View for UpstreamGroupId {
    type V = Seq<char>;

    closed spec fn view(&self) -> Seq<char> {
        self.0@
    }
}

impl Clone for UpstreamGroupId {
    fn clone(&self) -> (r: Self)
        ensures
            r@ == self@,
    {
        UpstreamGroupId(self.0.clone())
    }
}

impl PartialEq for UpstreamGroupId {
    fn eq(&self, other: &Self) -> (r: bool) {
        self.0 == other.0
    }
}

impl vstd::std_specs::cmp::PartialEqSpecImpl for UpstreamGroupId {
    open spec fn obeys_eq_spec() -> bool {
        true
    }

    open spec fn eq_spec(&self, other: &Self) -> bool {
        self@ == other@
    }
}

impl Eq for UpstreamGroupId {

}

impl UpstreamGroupId {
    /// Creates a new upstream group identifier.
    pub fn new(id: &str) -> (r: Self)
        ensures
            r@ == id@,
    {
        UpstreamGroupId(id.to_owned())
    }

    /// Returns this identifier's string value.
    pub fn as_str(&self) -> (r: &str)
        ensures
            r@ == self@,
    {
        self.0.as_str()
    }
}

/// The group views of a sequence of group identifiers.
pub open spec fn group_views(gs: Seq<UpstreamGroupId>) -> Seq<Seq<char>> {
    gs.map_values(|g: UpstreamGroupId| g@)
}

/// The view of an optional group identifier.
pub open spec fn opt_group_view(g: Option<UpstreamGroupId>) -> Option<Seq<char>> {
    match g {
        Some(x) => Some(x@),
        None => None,
    }
}

/// The view of an optional borrowed group identifier.
pub open spec fn opt_ref_group_view(g: Option<&UpstreamGroupId>) -> Option<Seq<char>> {
    match g {
        Some(x) => Some(x@),
        None => None,
    }
}

/// The group a policy with rule patterns `ps`, rule groups `gs`, and default
/// group `d` routes `n` to is one of these: the group of the rule that
/// matcher precedence picks, or else the default group.
pub open spec fn routes_to(
    ps: Seq<PatternV>,
    gs: Seq<Seq<char>>,
    d: Option<Seq<char>>,
    n: Seq<Seq<u8>>,
    r: Option<Seq<char>>,
) -> bool {
    if any_match(ps, n) {
        exists|i: int| is_best(ps, n, i) && r == Some(gs[i])
    } else {
        r == d
    }
}

/// A static split-DNS policy.
#[derive(Debug)]
pub struct SplitDnsPolicy {
    matcher: DomainMatcher<UpstreamGroupId>,
    default_group: Option<UpstreamGroupId>,
}

impl SplitDnsPolicy {
    /// The rules' patterns, in insertion order.
    pub closed spec fn patterns(&self) -> Seq<PatternV> {
        self.matcher.patterns()
    }

    /// The rules' groups, in insertion order.
    pub closed spec fn groups(&self) -> Seq<Seq<char>> {
        group_views(self.matcher.values())
    }

    /// The group used when no rule matches.
    pub closed spec fn default_group_view(&self) -> Option<Seq<char>> {
        opt_group_view(self.default_group)
    }

    /// Starts building a policy.
    pub fn builder() -> (r: SplitDnsPolicyBuilder)
        ensures
            r.patterns() == Seq::<PatternV>::empty(),
            r.groups() == Seq::<Seq<char>>::empty(),
            r.default_group_view() is None,
    {
        SplitDnsPolicyBuilder::default()
    }

    /// Resolves the upstream group that should answer a query for `name`,
    /// falling back to the default group (if any) when no rule matches.
    pub fn resolve_group(&self, name: &Name) -> (r: Option<&UpstreamGroupId>)
        ensures
            self.groups().len() == self.patterns().len(),
            routes_to(
                self.patterns(),
                self.groups(),
                self.default_group_view(),
                name@,
                opt_ref_group_view(r),
            ),
    {
        let ghost vs = self.matcher.values();
        proof {
            self.matcher.lemma_lengths();
        }
        match self.matcher.resolve(name) {
            Some(g) => {
                proof {
                    let i = choose|i: int| is_best(self.patterns(), name@, i) && *g == vs[i];
                    assert(self.groups()[i] == vs[i]@);
                    assert(is_best(self.patterns(), name@, i) && opt_group_view(Some(*g)) == Some(
                        self.groups()[i],
                    ));
                }
                Some(g)
            },
            None => match &self.default_group {
                Some(g) => Some(g),
                None => None,
            },
        }
    }
}

/// Builds a [`SplitDnsPolicy`] from an ordered set of matching rules.
#[derive(Debug)]
pub struct SplitDnsPolicyBuilder {
    matcher: DomainMatcher<UpstreamGroupId>,
    default_group: Option<UpstreamGroupId>,
}

impl Default for SplitDnsPolicyBuilder {
    fn default() -> (r: Self)
        ensures
            r.patterns() == Seq::<PatternV>::empty(),
            r.groups() == Seq::<Seq<char>>::empty(),
            r.default_group_view() is None,
    {
        let r = SplitDnsPolicyBuilder { matcher: DomainMatcher::new(), default_group: None };
        assert(r.groups() =~= Seq::<Seq<char>>::empty());
        r
    }
}

impl SplitDnsPolicyBuilder {
    /// The rules' patterns added so far, in insertion order.
    pub closed spec fn patterns(&self) -> Seq<PatternV> {
        self.matcher.patterns()
    }

    /// The rules' groups added so far, in insertion order.
    pub closed spec fn groups(&self) -> Seq<Seq<char>> {
        group_views(self.matcher.values())
    }

    /// The default group set so far.
    pub closed spec fn default_group_view(&self) -> Option<Seq<char>> {
        opt_group_view(self.default_group)
    }

    /// Adds a routing rule after the existing ones; earlier rules win ties.
    pub fn rule(self, pattern: DomainPattern, group: UpstreamGroupId) -> (r: Self)
        ensures
            r.patterns() == self.patterns().push(pattern@),
            r.groups() == self.groups().push(group@),
            r.default_group_view() == self.default_group_view(),
    {
        let mut b = self;
        let ghost g = group@;
        b.matcher.insert(pattern, group);
        assert(b.groups() =~= self.groups().push(g));
        b
    }

    /// Sets the group used when no rule matches a query.
    pub fn default_group(self, group: UpstreamGroupId) -> (r: Self)
        ensures
            r.patterns() == self.patterns(),
            r.groups() == self.groups(),
            r.default_group_view() == Some(group@),
    {
        SplitDnsPolicyBuilder { matcher: self.matcher, default_group: Some(group) }
    }

    /// Builds the policy.
    pub fn build(self) -> (r: SplitDnsPolicy)
        ensures
            r.patterns() == self.patterns(),
            r.groups() == self.groups(),
            r.default_group_view() == self.default_group_view(),
    {
        SplitDnsPolicy { matcher: self.matcher, default_group: self.default_group }
    }
}

} // verus!
