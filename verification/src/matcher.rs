//! A zone/domain matcher with deterministic exact/suffix/wildcard
//! precedence.
//!
//! Matching is case-insensitive. An exact rule beats every suffix and
//! wildcard rule; a suffix rule beats every wildcard rule. Between rules of
//! the same kind, the one whose name has more labels wins. Ties keep
//! insertion order: the first inserted rule wins.

use vstd::prelude::*;

use crate::error::Error;
use crate::name::{Name, name_ends_with, name_from_bytes, names_equal, parse_name_bytes};
use vstd::string::StringSliceAdditionalSpecFns;

verus! {

/// A single domain-matching rule.
#[derive(Debug, PartialEq, Eq)]
pub enum DomainPattern {
    /// Matches only this exact name (case-insensitive).
    Exact(Name),
    /// Matches this name and any subdomain (`example.com` matches
    /// `example.com` and `foo.example.com`, not `notexample.com`).
    Suffix(Name),
    /// Matches strict subdomains of this name only (`*.example.com`
    /// matches `foo.example.com`, not `example.com`).
    Wildcard(Name),
}

/// The mathematical value of a [`DomainPattern`].
pub enum PatternV {
    Exact(Seq<Seq<u8>>),
    Suffix(Seq<Seq<u8>>),
    Wildcard(Seq<Seq<u8>>),
}

impl View for DomainPattern {
    type V = PatternV;

    open spec fn view(&self) -> PatternV {
        match self {
            DomainPattern::Exact(n) => PatternV::Exact(n@),
            DomainPattern::Suffix(n) => PatternV::Suffix(n@),
            DomainPattern::Wildcard(n) => PatternV::Wildcard(n@),
        }
    }
}

impl Clone for DomainPattern {
    fn clone(&self) -> (r: Self)
        ensures
            r@ == self@,
    {
        match self {
            DomainPattern::Exact(n) => DomainPattern::Exact(n.clone()),
            DomainPattern::Suffix(n) => DomainPattern::Suffix(n.clone()),
            DomainPattern::Wildcard(n) => DomainPattern::Wildcard(n.clone()),
        }
    }
}

/// Whether `candidate` matches pattern `p`.
pub open spec fn pattern_matches(p: PatternV, candidate: Seq<Seq<u8>>) -> bool {
    match p {
        PatternV::Exact(n) => names_equal(candidate, n),
        PatternV::Suffix(n) => name_ends_with(candidate, n),
        PatternV::Wildcard(n) => candidate.len() > n.len() && name_ends_with(candidate, n),
    }
}

/// The kind rank of a pattern: exact 2, suffix 1, wildcard 0.
pub open spec fn pattern_rank(p: PatternV) -> int {
    match p {
        PatternV::Exact(_) => 2,
        PatternV::Suffix(_) => 1,
        PatternV::Wildcard(_) => 0,
    }
}

/// The number of labels in a pattern's name.
pub open spec fn pattern_labels(p: PatternV) -> int {
    match p {
        PatternV::Exact(n) => n.len() as int,
        PatternV::Suffix(n) => n.len() as int,
        PatternV::Wildcard(n) => n.len() as int,
    }
}

/// Pattern `a` is strictly more specific than pattern `b`: a higher kind
/// rank, or the same rank and more labels.
pub open spec fn more_specific(a: PatternV, b: PatternV) -> bool {
    pattern_rank(a) > pattern_rank(b) || (pattern_rank(a) == pattern_rank(b) && pattern_labels(a)
        > pattern_labels(b))
}

/// Whether a presentation-form pattern contains a `*` at or after `from`.
pub open spec fn has_star(b: Seq<u8>) -> bool {
    exists|i: int| 0 <= i < b.len() && b[i] == 42
}

/// Parses a pattern's presentation form: a leading `*.` gives a wildcard
/// over the remainder; any other `*` is a `WildcardPosition` error;
/// anything else gives a suffix pattern.
pub open spec fn parse_pattern_bytes(b: Seq<u8>) -> Result<PatternV, Error> {
    if b.len() >= 2 && b[0] == 42 && b[1] == 46 {
        let rest = b.subrange(2, b.len() as int);
        if has_star(rest) {
            Err(Error::WildcardPosition)
        } else {
            match parse_name_bytes(rest) {
                Ok(n) => Ok(PatternV::Wildcard(n)),
                Err(e) => Err(e),
            }
        }
    } else if has_star(b) {
        Err(Error::WildcardPosition)
    } else {
        match parse_name_bytes(b) {
            Ok(n) => Ok(PatternV::Suffix(n)),
            Err(e) => Err(e),
        }
    }
}

fn contains_star(b: &[u8], from: usize) -> (r: bool)
    requires
        from <= b@.len(),
    ensures
        r == has_star(b@.subrange(from as int, b@.len() as int)),
{
    let mut i = from;
    while i < b.len()
        invariant
            from <= i <= b@.len(),
            forall|k: int| from <= k < i ==> b@[k] != 42,
        decreases b@.len() - i,
    {
        if b[i] == 42 {
            assert(b@.subrange(from as int, b@.len() as int)[i - from] == 42);
            return true;
        }
        i = i + 1;
    }
    assert forall|k: int| 0 <= k < b@.len() - from implies b@.subrange(
        from as int,
        b@.len() as int,
    )[k] != 42 by {
        assert(b@.subrange(from as int, b@.len() as int)[k] == b@[from + k]);
    }
    false
}

impl DomainPattern {
    /// Constructs an exact-match pattern.
    pub fn exact(name: Name) -> (r: Self)
        ensures
            r@ == PatternV::Exact(name@),
    {
        DomainPattern::Exact(name)
    }

    /// Constructs a suffix-match pattern.
    pub fn suffix(name: Name) -> (r: Self)
        ensures
            r@ == PatternV::Suffix(name@),
    {
        DomainPattern::Suffix(name)
    }

    /// Constructs a wildcard-match pattern.
    pub fn wildcard(name: Name) -> (r: Self)
        ensures
            r@ == PatternV::Wildcard(name@),
    {
        DomainPattern::Wildcard(name)
    }

    /// Parses a pattern from its presentation form: a leading `"*."`
    /// produces a wildcard pattern over the remainder; any other `*` is
    /// rejected with `WildcardPosition`; anything else produces a suffix
    /// pattern.
    pub fn parse(s: &str) -> (r: Result<DomainPattern, Error>)
        ensures
            match parse_pattern_bytes(s.spec_bytes()) {
                Ok(p) => r matches Ok(x) && x@ == p,
                Err(e) => r == Err::<DomainPattern, Error>(e),
            },
    {
        let b = s.as_bytes();
        proof {
            assert(b@.subrange(0, b@.len() as int) =~= b@);
        }
        if b.len() >= 2 && b[0] == 42 && b[1] == 46 {
            if contains_star(b, 2) {
                return Err(Error::WildcardPosition);
            }
            return match name_from_bytes(b, 2) {
                Ok(n) => Ok(DomainPattern::Wildcard(n)),
                Err(e) => Err(e),
            };
        }
        if contains_star(b, 0) {
            return Err(Error::WildcardPosition);
        }
        match name_from_bytes(b, 0) {
            Ok(n) => Ok(DomainPattern::Suffix(n)),
            Err(e) => Err(e),
        }
    }

    /// Whether `candidate` matches this pattern.
    pub fn matches(&self, candidate: &Name) -> (r: bool)
        ensures
            r == pattern_matches(self@, candidate@),
    {
        match self {
            DomainPattern::Exact(name) => candidate.eq_ignore_case(name),
            DomainPattern::Suffix(name) => candidate.ends_with(name),
            DomainPattern::Wildcard(name) => candidate.label_count() > name.label_count()
                && candidate.ends_with(name),
        }
    }

    /// `(kind rank, label count)`: exact 2, suffix 1, wildcard 0; within a
    /// kind, more labels is more specific.
    pub fn specificity(&self) -> (r: (u8, usize))
        ensures
            r.0 == pattern_rank(self@),
            r.1 == pattern_labels(self@),
    {
        match self {
            DomainPattern::Exact(name) => (2, name.label_count()),
            DomainPattern::Suffix(name) => (1, name.label_count()),
            DomainPattern::Wildcard(name) => (0, name.label_count()),
        }
    }
}

/// `a` is strictly more specific than `b` as `(rank, labels)` pairs.
fn score_gt(a: (u8, usize), b: (u8, usize)) -> (r: bool)
    ensures
        r == (a.0 > b.0 || (a.0 == b.0 && a.1 > b.1)),
{
    a.0 > b.0 || (a.0 == b.0 && a.1 > b.1)
}

/// The rules' patterns, in insertion order.
pub open spec fn rule_patterns<T>(rules: Seq<(DomainPattern, T)>) -> Seq<PatternV> {
    rules.map_values(|r: (DomainPattern, T)| r.0@)
}

/// Rule `i` is the one `resolve` picks for `n`: it matches, no matching
/// rule is more specific, and every earlier matching rule is strictly less
/// specific.
pub open spec fn is_best(ps: Seq<PatternV>, n: Seq<Seq<u8>>, i: int) -> bool {
    &&& 0 <= i < ps.len()
    &&& pattern_matches(ps[i], n)
    &&& forall|j: int|
        0 <= j < ps.len() && pattern_matches(ps[j], n) ==> !#[trigger] more_specific(ps[j], ps[i])
    &&& forall|j: int|
        0 <= j < i && pattern_matches(ps[j], n) ==> #[trigger] more_specific(ps[i], ps[j])
}

/// Whether any rule matches `n`.
pub open spec fn any_match(ps: Seq<PatternV>, n: Seq<Seq<u8>>) -> bool {
    exists|j: int| 0 <= j < ps.len() && #[trigger] pattern_matches(ps[j], n)
}

/// Rule `a` comes before rule `b` in precedence order.
pub open spec fn precedes(ps: Seq<PatternV>, a: int, b: int) -> bool {
    more_specific(ps[a], ps[b]) || (!more_specific(ps[b], ps[a]) && a < b)
}

/// `idx` lists every rule matching `n` exactly once, in precedence order:
/// more specific first, ties in insertion order.
pub open spec fn precedence_order(ps: Seq<PatternV>, n: Seq<Seq<u8>>, idx: Seq<int>) -> bool {
    &&& forall|k: int| 0 <= k < idx.len() ==> 0 <= #[trigger] idx[k] < ps.len()
    &&& forall|k: int| 0 <= k < idx.len() ==> pattern_matches(ps[#[trigger] idx[k]], n)
    &&& forall|j: int|
        0 <= j < ps.len() && #[trigger] pattern_matches(ps[j], n) ==> idx.contains(j)
    &&& forall|k1: int, k2: int|
        0 <= k1 < k2 < idx.len() ==> precedes(ps, #[trigger] idx[k1], #[trigger] idx[k2])
}

/// A precedence-ordered collection of domain patterns mapped to values of
/// type `T`.
///
/// 1. Exact beats suffix beats wildcard beats no match.
/// 2. Within the same kind, a longer (more specific) match wins.
/// 3. A tie at equal kind and specificity goes to the first-inserted rule.
#[derive(Debug)]
pub struct DomainMatcher<T> {
    pub(crate) rules: Vec<(DomainPattern, T)>,
}

impl<T> DomainMatcher<T> {
    /// The rules' patterns in insertion order.
    pub closed spec fn patterns(&self) -> Seq<PatternV> {
        rule_patterns(self.rules@)
    }

    /// The rules' values in insertion order.
    pub closed spec fn values(&self) -> Seq<T> {
        self.rules@.map_values(|r: (DomainPattern, T)| r.1)
    }

    proof fn lemma_views(&self)
        ensures
            self.patterns().len() == self.rules@.len(),
            self.values().len() == self.rules@.len(),
            forall|j: int|
                0 <= j < self.rules@.len() ==> #[trigger] self.patterns()[j] == self.rules@[j].0@,
            forall|j: int|
                0 <= j < self.rules@.len() ==> #[trigger] self.values()[j] == self.rules@[j].1,
    {
    }

    /// Every rule has one pattern and one value.
    pub proof fn lemma_lengths(&self)
        ensures
            self.patterns().len() == self.values().len(),
    {
        self.lemma_views();
    }

    /// Creates an empty matcher.
    pub fn new() -> (r: Self)
        ensures
            r.patterns() == Seq::<PatternV>::empty(),
            r.values() == Seq::<T>::empty(),
    {
        let r = DomainMatcher { rules: Vec::new() };
        assert(r.patterns() =~= Seq::<PatternV>::empty());
        assert(r.values() =~= Seq::<T>::empty());
        r
    }

    /// Adds a rule after all existing ones; it loses ties to them.
    pub fn insert(&mut self, pattern: DomainPattern, value: T)
        ensures
            final(self).patterns() == old(self).patterns().push(pattern@),
            final(self).values() == old(self).values().push(value),
    {
        let ghost p = pattern@;
        self.rules.push((pattern, value));
        proof {
            self.lemma_views();
            old(self).lemma_views();
            assert(self.patterns() =~= old(self).patterns().push(p));
            assert(self.values() =~= old(self).values().push(value));
        }
    }

    /// The index of the rule `resolve` picks for `name`.
    pub fn resolve_index(&self, name: &Name) -> (r: Option<usize>)
        ensures
            r is None <==> !any_match(self.patterns(), name@),
            r matches Some(i) ==> is_best(self.patterns(), name@, i as int),
    {
        let ghost ps = self.patterns();
        proof {
            self.lemma_views();
        }
        let mut best: Option<(usize, (u8, usize))> = None;
        let mut i: usize = 0;
        while i < self.rules.len()
            invariant
                ps == self.patterns(),
                ps.len() == self.rules@.len(),
                forall|j: int| 0 <= j < self.rules@.len() ==> #[trigger] ps[j] == self.rules@[j].0@,
                0 <= i <= ps.len(),
                best is None ==> forall|j: int| 0 <= j < i ==> !#[trigger] pattern_matches(ps[j], name@),
                best matches Some((b, s)) ==> {
                    &&& b < i
                    &&& pattern_matches(ps[b as int], name@)
                    &&& s.0 == pattern_rank(ps[b as int])
                    &&& s.1 == pattern_labels(ps[b as int])
                    &&& forall|j: int|
                        0 <= j < i && pattern_matches(ps[j], name@) ==> !#[trigger] more_specific(
                            ps[j],
                            ps[b as int],
                        )
                    &&& forall|j: int|
                        0 <= j < b && pattern_matches(ps[j], name@) ==> #[trigger] more_specific(
                            ps[b as int],
                            ps[j],
                        )
                },
            decreases ps.len() - i,
        {
            let (pattern, _) = &self.rules[i];
            if pattern.matches(name) {
                let score = pattern.specificity();
                match best {
                    Some((b, s)) => {
                        if score_gt(score, s) {
                            proof {
                                assert forall|j: int|
                                    0 <= j < i + 1 && pattern_matches(ps[j], name@) implies !#[trigger] more_specific(
                                    ps[j],
                                    ps[i as int],
                                ) by {
                                    if j < i {
                                        assert(!more_specific(ps[j], ps[b as int]));
                                    }
                                }
                                assert forall|j: int|
                                    0 <= j < i && pattern_matches(ps[j], name@) implies #[trigger] more_specific(
                                    ps[i as int],
                                    ps[j],
                                ) by {
                                    assert(!more_specific(ps[j], ps[b as int]));
                                }
                            }
                            best = Some((i, score));
                        } else {
                            proof {
                                assert(!more_specific(ps[i as int], ps[b as int]));
                            }
                        }
                    },
                    None => {
                        best = Some((i, score));
                    },
                }
            }
            i = i + 1;
        }
        match best {
            Some((b, _)) => Some(b),
            None => None,
        }
    }

    /// Returns the highest-precedence matching rule's value, or `None` if no
    /// rule matches.
    pub fn resolve(&self, name: &Name) -> (r: Option<&T>)
        ensures
            r is None <==> !any_match(self.patterns(), name@),
            r matches Some(v) ==> exists|i: int|
                is_best(self.patterns(), name@, i) && *v == self.values()[i],
    {
        proof {
            self.lemma_views();
        }
        match self.resolve_index(name) {
            Some(i) => {
                proof {
                    assert(self.values()[i as int] == self.rules@[i as int].1);
                    assert(is_best(self.patterns(), name@, i as int) && self.rules@[i as int].1
                        == self.values()[i as int]);
                }
                Some(&self.rules[i].1)
            },
            None => None,
        }
    }

    /// The indices of every matching rule in precedence order.
    pub fn resolve_all_indices(&self, name: &Name) -> (r: Vec<usize>)
        ensures
            precedence_order(self.patterns(), name@, r@.map_values(|k: usize| k as int)),
    {
        let ghost ps = self.patterns();
        proof {
            self.lemma_views();
        }
        let mut out: Vec<usize> = Vec::new();
        let mut scores: Vec<(u8, usize)> = Vec::new();
        let mut i: usize = 0;
        while i < self.rules.len()
            invariant
                ps == self.patterns(),
                ps.len() == self.rules@.len(),
                forall|j: int| 0 <= j < self.rules@.len() ==> #[trigger] ps[j] == self.rules@[j].0@,
                0 <= i <= ps.len(),
                scores@.len() == out@.len(),
                forall|k: int| 0 <= k < out@.len() ==> #[trigger] out@[k] < i,
                forall|k: int|
                    0 <= k < out@.len() ==> pattern_matches(ps[#[trigger] out@[k] as int], name@),
                forall|k: int|
                    0 <= k < out@.len() ==> (#[trigger] scores@[k]).0 == pattern_rank(
                        ps[out@[k] as int],
                    ) && scores@[k].1 == pattern_labels(ps[out@[k] as int]),
                forall|j: int|
                    0 <= j < i && #[trigger] pattern_matches(ps[j], name@) ==> exists|k: int|
                        0 <= k < out@.len() && out@[k] == j,
                forall|k1: int, k2: int|
                    0 <= k1 < k2 < out@.len() ==> precedes(
                        ps,
                        #[trigger] out@[k1] as int,
                        #[trigger] out@[k2] as int,
                    ),
            decreases ps.len() - i,
        {
            let (pattern, _) = &self.rules[i];
            if pattern.matches(name) {
                let score = pattern.specificity();
                let mut p: usize = 0;
                while p < out.len() && !score_gt(score, scores[p])
                    invariant
                        0 <= p <= out@.len(),
                        scores@.len() == out@.len(),
                        score.0 == pattern_rank(ps[i as int]),
                        score.1 == pattern_labels(ps[i as int]),
                        forall|k: int|
                            0 <= k < out@.len() ==> (#[trigger] scores@[k]).0 == pattern_rank(
                                ps[out@[k] as int],
                            ) && scores@[k].1 == pattern_labels(ps[out@[k] as int]),
                        forall|k: int|
                            0 <= k < p ==> !more_specific(ps[i as int], ps[#[trigger] out@[k] as int]),
                    decreases out@.len() - p,
                {
                    p = p + 1;
                }
                let ghost old_out = out@;
                let ghost old_scores = scores@;
                proof {
                    assert forall|k: int| p <= k < old_out.len() implies more_specific(
                        ps[i as int],
                        ps[#[trigger] old_out[k] as int],
                    ) by {
                        if k > p {
                            assert(precedes(ps, old_out[p as int] as int, old_out[k] as int));
                        }
                    }
                }
                out.insert(p, i);
                scores.insert(p, score);
                proof {
                    assert forall|k1: int, k2: int| 0 <= k1 < k2 < out@.len() implies precedes(
                        ps,
                        #[trigger] out@[k1] as int,
                        #[trigger] out@[k2] as int,
                    ) by {
                        if k1 < p && k2 < p {
                            assert(out@[k1] == old_out[k1] && out@[k2] == old_out[k2]);
                        } else if k1 < p && k2 == p {
                            assert(out@[k1] == old_out[k1]);
                        } else if k1 < p {
                            assert(out@[k1] == old_out[k1] && out@[k2] == old_out[k2 - 1]);
                        } else if k1 == p {
                            assert(out@[k2] == old_out[k2 - 1]);
                        } else {
                            assert(out@[k1] == old_out[k1 - 1] && out@[k2] == old_out[k2 - 1]);
                        }
                    }
                    assert forall|j: int|
                        0 <= j < i + 1 && #[trigger] pattern_matches(ps[j], name@) implies exists|
                        k: int,
                    |
                        0 <= k < out@.len() && out@[k] == j by {
                        if j == i {
                            assert(out@[p as int] == i);
                        } else {
                            let k = choose|k: int| 0 <= k < old_out.len() && old_out[k] == j;
                            if k < p {
                                assert(out@[k] == j);
                            } else {
                                assert(out@[k + 1] == j);
                            }
                        }
                    }
                    assert forall|k: int| 0 <= k < out@.len() implies (#[trigger] scores@[k]).0
                        == pattern_rank(ps[out@[k] as int]) && scores@[k].1 == pattern_labels(
                        ps[out@[k] as int],
                    ) by {
                        if k < p {
                            assert(scores@[k] == old_scores[k] && out@[k] == old_out[k]);
                        } else if k > p {
                            assert(scores@[k] == old_scores[k - 1] && out@[k] == old_out[k - 1]);
                        }
                    }
                    assert forall|k: int| 0 <= k < out@.len() implies pattern_matches(
                        ps[#[trigger] out@[k] as int],
                        name@,
                    ) by {
                        if k < p {
                            assert(out@[k] == old_out[k]);
                        } else if k > p {
                            assert(out@[k] == old_out[k - 1]);
                        }
                    }
                    assert forall|k: int| 0 <= k < out@.len() implies #[trigger] out@[k] < i + 1 by {
                        if k < p {
                            assert(out@[k] == old_out[k]);
                        } else if k > p {
                            assert(out@[k] == old_out[k - 1]);
                        }
                    }
                }
            }
            i = i + 1;
        }
        proof {
            let idx = out@.map_values(|k: usize| k as int);
            assert forall|j: int|
                0 <= j < ps.len() && #[trigger] pattern_matches(ps[j], name@) implies idx.contains(
                j,
            ) by {
                let k = choose|k: int| 0 <= k < out@.len() && out@[k] == j;
                assert(idx[k] == j);
            }
        }
        out
    }

    /// Returns every matching rule's value in precedence order: more
    /// specific first, ties in insertion order.
    pub fn resolve_all(&self, name: &Name) -> (r: Vec<&T>)
        ensures
            exists|idx: Seq<int>|
                {
                    &&& precedence_order(self.patterns(), name@, idx)
                    &&& r@.len() == idx.len()
                    &&& forall|k: int| 0 <= k < idx.len() ==> *r@[k] == self.values()[#[trigger] idx[k]]
                },
    {
        proof {
            self.lemma_views();
        }
        let order = self.resolve_all_indices(name);
        let ghost idx = order@.map_values(|k: usize| k as int);
        let mut out: Vec<&T> = Vec::new();
        let mut k: usize = 0;
        while k < order.len()
            invariant
                idx == order@.map_values(|k: usize| k as int),
                precedence_order(self.patterns(), name@, idx),
                self.patterns().len() == self.rules@.len(),
                forall|j: int|
                    0 <= j < self.rules@.len() ==> #[trigger] self.values()[j] == self.rules@[j].1,
                0 <= k <= order@.len(),
                out@.len() == k,
                forall|m: int| 0 <= m < k ==> *out@[m] == self.values()[#[trigger] idx[m]],
            decreases order@.len() - k,
        {
            assert(idx[k as int] == order@[k as int] as int);
            let j = order[k];
            out.push(&self.rules[j].1);
            k = k + 1;
        }
        proof {
            assert(precedence_order(self.patterns(), name@, idx) && out@.len() == idx.len());
        }
        out
    }
}

impl<T> Default for DomainMatcher<T> {
    fn default() -> (r: Self)
        ensures
            r.patterns() == Seq::<PatternV>::empty(),
            r.values() == Seq::<T>::empty(),
    {
        DomainMatcher::new()
    }
}

/// At most one rule is the best match for a name, so `resolve` is
/// deterministic.
pub proof fn lemma_best_is_unique(ps: Seq<PatternV>, n: Seq<Seq<u8>>, i: int, j: int)
    requires
        is_best(ps, n, i),
        is_best(ps, n, j),
    ensures
        i == j,
{
    if i < j {
        assert(more_specific(ps[j], ps[i]));
    }
    if j < i {
        assert(more_specific(ps[i], ps[j]));
    }
}

/// The rule listed first in precedence order is the best match: the first
/// value `resolve_all` returns is the value `resolve` returns.
pub proof fn lemma_first_in_order_is_best(ps: Seq<PatternV>, n: Seq<Seq<u8>>, idx: Seq<int>)
    requires
        precedence_order(ps, n, idx),
        idx.len() > 0,
    ensures
        is_best(ps, n, idx[0]),
{
    let b = idx[0];
    assert(0 <= b < ps.len() && pattern_matches(ps[b], n));
    assert forall|j: int| 0 <= j < ps.len() && pattern_matches(ps[j], n) implies !#[trigger] more_specific(
        ps[j],
        ps[b],
    ) by {
        assert(idx.contains(j));
        let k = choose|k: int| 0 <= k < idx.len() && idx[k] == j;
        if k > 0 {
            assert(precedes(ps, idx[0], idx[k]));
        }
    }
    assert forall|j: int| 0 <= j < b && pattern_matches(ps[j], n) implies #[trigger] more_specific(
        ps[b],
        ps[j],
    ) by {
        assert(idx.contains(j));
        let k = choose|k: int| 0 <= k < idx.len() && idx[k] == j;
        assert(k != 0);
        assert(precedes(ps, idx[0], idx[k]));
    }
}

/// A name's precedence order is empty exactly when no rule matches it.
pub proof fn lemma_order_empty_iff_no_match(ps: Seq<PatternV>, n: Seq<Seq<u8>>, idx: Seq<int>)
    requires
        precedence_order(ps, n, idx),
    ensures
        idx.len() == 0 <==> !any_match(ps, n),
{
    if any_match(ps, n) {
        let j = choose|j: int| 0 <= j < ps.len() && #[trigger] pattern_matches(ps[j], n);
        assert(idx.contains(j));
    }
    if idx.len() > 0 {
        assert(pattern_matches(ps[idx[0]], n));
    }
}

/// A matching exact rule beats every suffix and wildcard rule.
pub proof fn lemma_exact_beats_other_kinds(ps: Seq<PatternV>, n: Seq<Seq<u8>>, i: int, j: int)
    requires
        is_best(ps, n, i),
        0 <= j < ps.len(),
        ps[j] is Exact,
        pattern_matches(ps[j], n),
    ensures
        ps[i] is Exact,
{
    assert(!more_specific(ps[j], ps[i]));
}

/// A matching suffix rule beats every wildcard rule.
pub proof fn lemma_suffix_beats_wildcard(ps: Seq<PatternV>, n: Seq<Seq<u8>>, i: int, j: int)
    requires
        is_best(ps, n, i),
        0 <= j < ps.len(),
        ps[j] is Suffix,
        pattern_matches(ps[j], n),
    ensures
        !(ps[i] is Wildcard),
{
    assert(!more_specific(ps[j], ps[i]));
}

/// Between matching rules of the same kind, the one with more labels wins.
pub proof fn lemma_longer_name_wins(ps: Seq<PatternV>, n: Seq<Seq<u8>>, i: int, j: int)
    requires
        is_best(ps, n, i),
        0 <= j < ps.len(),
        pattern_matches(ps[j], n),
        pattern_rank(ps[j]) == pattern_rank(ps[i]),
    ensures
        pattern_labels(ps[j]) <= pattern_labels(ps[i]),
{
    assert(!more_specific(ps[j], ps[i]));
}

/// Between equally specific matching rules, the first inserted wins.
pub proof fn lemma_tie_goes_to_first_inserted(ps: Seq<PatternV>, n: Seq<Seq<u8>>, i: int, j: int)
    requires
        is_best(ps, n, i),
        0 <= j < ps.len(),
        pattern_matches(ps[j], n),
        pattern_rank(ps[j]) == pattern_rank(ps[i]),
        pattern_labels(ps[j]) == pattern_labels(ps[i]),
    ensures
        i <= j,
{
    if j < i {
        assert(more_specific(ps[i], ps[j]));
    }
}

/// Rule indices `idx` are strictly ordered by precedence: each comes before
/// every later one.
pub open spec fn ordered(ps: Seq<PatternV>, idx: Seq<int>) -> bool {
    &&& forall|k: int| 0 <= k < idx.len() ==> 0 <= #[trigger] idx[k] < ps.len()
    &&& forall|k1: int, k2: int|
        0 <= k1 < k2 < idx.len() ==> precedes(ps, #[trigger] idx[k1], #[trigger] idx[k2])
}

/// Two rules never precede each other, and no rule precedes itself.
proof fn lemma_precedes_antisymmetric(ps: Seq<PatternV>, a: int, b: int)
    ensures
        !(precedes(ps, a, b) && precedes(ps, b, a)),
        !precedes(ps, a, a),
{
}

/// Two precedence-ordered lists of the same rules are the same list.
proof fn lemma_ordered_unique(ps: Seq<PatternV>, a: Seq<int>, b: Seq<int>)
    requires
        ordered(ps, a),
        ordered(ps, b),
        forall|j: int| a.contains(j) <==> b.contains(j),
    ensures
        a == b,
    decreases a.len(),
{
    if a.len() == 0 {
        if b.len() > 0 {
            assert(b.contains(b[0]));
        }
        assert(a =~= b);
    } else {
        assert(a.contains(a[0]));
        assert(b.len() > 0);
        assert(b.contains(b[0]));
        let k = choose|k: int| 0 <= k < b.len() && b[k] == a[0];
        let m = choose|m: int| 0 <= m < a.len() && a[m] == b[0];
        if a[0] != b[0] {
            assert(k > 0 && m > 0);
            assert(precedes(ps, b[0], b[k]));
            assert(precedes(ps, a[0], a[m]));
            lemma_precedes_antisymmetric(ps, a[0], b[0]);
        }
        let a1 = a.drop_first();
        let b1 = b.drop_first();
        assert forall|j: int| a1.contains(j) <==> b1.contains(j) by {
            if a1.contains(j) {
                let i = choose|i: int| 0 <= i < a1.len() && a1[i] == j;
                assert(a[i + 1] == j);
                assert(precedes(ps, a[0], a[i + 1]));
                lemma_precedes_antisymmetric(ps, j, j);
                assert(j != b[0]);
                assert(a.contains(j));
                let i2 = choose|i2: int| 0 <= i2 < b.len() && b[i2] == j;
                assert(i2 > 0 && b1[i2 - 1] == j);
            }
            if b1.contains(j) {
                let i = choose|i: int| 0 <= i < b1.len() && b1[i] == j;
                assert(b[i + 1] == j);
                assert(precedes(ps, b[0], b[i + 1]));
                lemma_precedes_antisymmetric(ps, j, j);
                assert(j != a[0]);
                assert(b.contains(j));
                let i2 = choose|i2: int| 0 <= i2 < a.len() && a[i2] == j;
                assert(i2 > 0 && a1[i2 - 1] == j);
            }
        }
        assert(ordered(ps, a1) && ordered(ps, b1)) by {
            assert forall|k1: int, k2: int| 0 <= k1 < k2 < a1.len() implies precedes(
                ps,
                #[trigger] a1[k1],
                #[trigger] a1[k2],
            ) by {
                assert(a1[k1] == a[k1 + 1] && a1[k2] == a[k2 + 1]);
            }
            assert forall|k1: int, k2: int| 0 <= k1 < k2 < b1.len() implies precedes(
                ps,
                #[trigger] b1[k1],
                #[trigger] b1[k2],
            ) by {
                assert(b1[k1] == b[k1 + 1] && b1[k2] == b[k2 + 1]);
            }
        }
        lemma_ordered_unique(ps, a1, b1);
        assert(a =~= seq![a[0]] + a1);
        assert(b =~= seq![b[0]] + b1);
    }
}

/// A name's precedence order is unique, so `resolve_all` is
/// deterministic.
pub proof fn lemma_precedence_order_is_unique(
    ps: Seq<PatternV>,
    n: Seq<Seq<u8>>,
    a: Seq<int>,
    b: Seq<int>,
)
    requires
        precedence_order(ps, n, a),
        precedence_order(ps, n, b),
    ensures
        a == b,
{
    assert forall|j: int| a.contains(j) <==> b.contains(j) by {
        if a.contains(j) {
            let k = choose|k: int| 0 <= k < a.len() && a[k] == j;
            assert(pattern_matches(ps[a[k]], n));
        }
        if b.contains(j) {
            let k = choose|k: int| 0 <= k < b.len() && b[k] == j;
            assert(pattern_matches(ps[b[k]], n));
        }
    }
    lemma_ordered_unique(ps, a, b);
}

/// The first position at or after `k` in `idx` whose rule pattern `p` is
/// strictly more specific than, or `idx.len()` if there is none.
pub open spec fn first_weaker(ps: Seq<PatternV>, idx: Seq<int>, p: PatternV, k: int) -> int
    decreases idx.len() - k,
{
    if k >= idx.len() {
        idx.len() as int
    } else if more_specific(p, ps[idx[k]]) {
        k
    } else {
        first_weaker(ps, idx, p, k + 1)
    }
}

/// In a precedence-ordered list, the rules that `p` is more specific than
/// form a suffix starting at `first_weaker`.
proof fn lemma_first_weaker(ps: Seq<PatternV>, idx: Seq<int>, p: PatternV, k: int)
    requires
        ordered(ps, idx),
        0 <= k <= idx.len(),
    ensures
        k <= first_weaker(ps, idx, p, k) <= idx.len(),
        forall|j: int|
            k <= j < first_weaker(ps, idx, p, k) ==> !more_specific(p, #[trigger] ps[idx[j]]),
        forall|j: int|
            first_weaker(ps, idx, p, k) <= j < idx.len() ==> more_specific(p, #[trigger] ps[idx[j]]),
    decreases idx.len() - k,
{
    if k < idx.len() {
        if more_specific(p, ps[idx[k]]) {
            assert forall|j: int| k <= j < idx.len() implies more_specific(p, #[trigger] ps[idx[j]]) by {
                if j > k {
                    assert(precedes(ps, idx[k], idx[j]));
                }
            }
        } else {
            lemma_first_weaker(ps, idx, p, k + 1);
        }
    }
}

/// Inserting a rule with pattern `p` changes a name's precedence order as
/// follows: if `p` does not match the name, the order is unchanged;
/// otherwise the new rule is placed after every matching rule that is at
/// least as specific as `p` (so a later rule loses ties to earlier ones)
/// and before every less specific one. With `DomainMatcher::insert`
/// appending the rule and `resolve_all` listing values in precedence order,
/// this is where the inserted value appears in `resolve_all`.
pub proof fn lemma_insert_precedence(
    ps: Seq<PatternV>,
    p: PatternV,
    n: Seq<Seq<u8>>,
    idx: Seq<int>,
    idx2: Seq<int>,
)
    requires
        precedence_order(ps, n, idx),
        precedence_order(ps.push(p), n, idx2),
    ensures
        !pattern_matches(p, n) ==> idx2 == idx,
        pattern_matches(p, n) ==> {
            let m = first_weaker(ps, idx, p, 0);
            &&& 0 <= m <= idx.len()
            &&& forall|k: int| 0 <= k < m ==> !more_specific(p, #[trigger] ps[idx[k]])
            &&& forall|k: int| m <= k < idx.len() ==> more_specific(p, #[trigger] ps[idx[k]])
            &&& idx2 == idx.take(m) + seq![ps.len() as int] + idx.skip(m)
        },
{
    let ps2 = ps.push(p);
    let l = ps.len() as int;
    assert forall|j: int| 0 <= j < l implies #[trigger] ps2[j] == ps[j] by {}
    assert(ordered(ps, idx));
    if !pattern_matches(p, n) {
        assert(precedence_order(ps2, n, idx)) by {
            assert forall|k: int| 0 <= k < idx.len() implies pattern_matches(
                ps2[#[trigger] idx[k]],
                n,
            ) by {
                assert(ps2[idx[k]] == ps[idx[k]]);
            }
            assert forall|j: int|
                0 <= j < ps2.len() && #[trigger] pattern_matches(ps2[j], n) implies idx.contains(j) by {
                assert(j != l);
                assert(ps2[j] == ps[j]);
            }
            assert forall|k1: int, k2: int| 0 <= k1 < k2 < idx.len() implies precedes(
                ps2,
                #[trigger] idx[k1],
                #[trigger] idx[k2],
            ) by {
                assert(precedes(ps, idx[k1], idx[k2]));
                assert(ps2[idx[k1]] == ps[idx[k1]] && ps2[idx[k2]] == ps[idx[k2]]);
            }
        }
        lemma_precedence_order_is_unique(ps2, n, idx, idx2);
    } else {
        lemma_first_weaker(ps, idx, p, 0);
        let m = first_weaker(ps, idx, p, 0);
        let ni = idx.take(m) + seq![l] + idx.skip(m);
        assert(ni.len() == idx.len() + 1);
        assert forall|k: int| 0 <= k < ni.len() implies #[trigger] ni[k] == (if k < m {
            idx[k]
        } else if k == m {
            l
        } else {
            idx[k - 1]
        }) by {}
        assert(precedence_order(ps2, n, ni)) by {
            assert forall|k: int| 0 <= k < ni.len() implies 0 <= #[trigger] ni[k] < ps2.len() by {
                if k != m {
                    let kk = if k < m { k } else { k - 1 };
                    assert(ni[k] == idx[kk]);
                }
            }
            assert forall|k: int| 0 <= k < ni.len() implies pattern_matches(
                ps2[#[trigger] ni[k]],
                n,
            ) by {
                if k != m {
                    let kk = if k < m { k } else { k - 1 };
                    assert(ni[k] == idx[kk]);
                    assert(ps2[idx[kk]] == ps[idx[kk]]);
                }
            }
            assert forall|j: int|
                0 <= j < ps2.len() && #[trigger] pattern_matches(ps2[j], n) implies ni.contains(j) by {
                if j == l {
                    assert(ni[m] == j);
                } else {
                    assert(ps2[j] == ps[j]);
                    assert(idx.contains(j));
                    let kk = choose|kk: int| 0 <= kk < idx.len() && idx[kk] == j;
                    if kk < m {
                        assert(ni[kk] == j);
                    } else {
                        assert(ni[kk + 1] == j);
                    }
                }
            }
            assert forall|k1: int, k2: int| 0 <= k1 < k2 < ni.len() implies precedes(
                ps2,
                #[trigger] ni[k1],
                #[trigger] ni[k2],
            ) by {
                if k1 == m {
                    assert(ni[k2] == idx[k2 - 1]);
                    assert(more_specific(p, ps[idx[k2 - 1]]));
                    assert(ps2[idx[k2 - 1]] == ps[idx[k2 - 1]]);
                } else if k2 == m {
                    assert(ni[k1] == idx[k1]);
                    assert(!more_specific(p, ps[idx[k1]]));
                    assert(ps2[idx[k1]] == ps[idx[k1]]);
                    assert(idx[k1] < l);
                } else {
                    let kk1 = if k1 < m { k1 } else { k1 - 1 };
                    let kk2 = if k2 < m { k2 } else { k2 - 1 };
                    assert(ni[k1] == idx[kk1] && ni[k2] == idx[kk2]);
                    assert(kk1 < kk2);
                    assert(precedes(ps, idx[kk1], idx[kk2]));
                    assert(ps2[idx[kk1]] == ps[idx[kk1]] && ps2[idx[kk2]] == ps[idx[kk2]]);
                }
            }
        }
        lemma_precedence_order_is_unique(ps2, n, ni, idx2);
    }
}

} // verus!
