//! Stateful, deterministic Fake IP address allocation.
//!
//! [`FakeIpPool`] maps a DNS [`Name`] to one synthetic address in each
//! configured family. Ranges are inclusive. A name's first candidate is
//! selected with a family-salted FNV-1a hash of its case-folded labels;
//! collisions use circular linear probing. Allocation is deterministic for
//! the current pool state. When all addresses in a family are assigned, the
//! least-recently-used mapping is evicted before a new one is inserted.
//!
//! Addresses are plain integers: an IPv4 address is its big-endian `u32`, an
//! IPv6 address its big-endian `u128`. Time is a caller-supplied monotonic
//! millisecond count; with a TTL configured, a mapping expires that many
//! whole seconds after it was created.

use vstd::prelude::*;

use crate::error::Error;
use crate::matcher::{DomainMatcher, DomainPattern, PatternV, any_match};
use crate::name::{
    Name,
    ascii_lower,
    lemma_names_equal_symmetric,
    lemma_names_equal_transitive,
    lower_byte,
    names_equal,
};
use vstd::set_lib::{lemma_int_range, lemma_len_subset, set_int_range};

verus! {

/// The FNV-1a 64-bit offset basis.
pub const FNV_OFFSET: u64 = 0xcbf2_9ce4_8422_2325;

/// The FNV-1a 64-bit prime.
pub const FNV_PRIME: u64 = 0x0000_0100_0000_01b3;

/// The salt mixed into the hash of IPv4 candidates.
pub const IPV4_HASH_SALT: u64 = 0x9b73_9f4a_a5c3_17d1;

/// The salt mixed into the hash of IPv6 candidates.
pub const IPV6_HASH_SALT: u64 = 0xe1d4_62b8_3f90_ac75;

/// One FNV-1a step over byte `b`.
pub open spec fn fnv_byte(h: u64, b: u8) -> u64 {
    (h ^ (b as u64)).wrapping_mul(FNV_PRIME)
}

/// FNV-1a over a label's case-folded bytes.
pub open spec fn fnv_label(h: u64, l: Seq<u8>) -> u64
    decreases l.len(),
{
    if l.len() == 0 {
        h
    } else {
        fnv_byte(fnv_label(h, l.drop_last()), lower_byte(l.last()))
    }
}

/// FNV-1a over a name: each label's case-folded bytes followed by a zero
/// byte.
pub open spec fn fnv_labels(h: u64, ls: Seq<Seq<u8>>) -> u64
    decreases ls.len(),
{
    if ls.len() == 0 {
        h
    } else {
        fnv_byte(fnv_label(fnv_labels(h, ls.drop_last()), ls.last()), 0)
    }
}

/// The salted FNV-1a hash of a name.
pub open spec fn spec_fnv1a(ls: Seq<Seq<u8>>, salt: u64) -> u64 {
    fnv_labels(FNV_OFFSET ^ salt, ls)
}

/// The family-salted FNV-1a hash of `name`'s case-folded labels.
pub fn fnv1a(name: &Name, salt: u64) -> (r: u64)
    ensures
        r == spec_fnv1a(name@, salt),
{
    let mut hash: u64 = FNV_OFFSET ^ salt;
    let mut i: usize = 0;
    while i < name.0.len()
        invariant
            name@.len() == name.0@.len(),
            0 <= i <= name@.len(),
            hash == fnv_labels(FNV_OFFSET ^ salt, name@.take(i as int)),
        decreases name@.len() - i,
    {
        let label = &name.0[i];
        proof {
            assert(name@[i as int] == label@);
        }
        let ghost h0 = hash;
        let mut j: usize = 0;
        while j < label.len()
            invariant
                0 <= j <= label@.len(),
                hash == fnv_label(h0, label@.take(j as int)),
            decreases label@.len() - j,
        {
            proof {
                assert(label@.take(j + 1).drop_last() =~= label@.take(j as int));
            }
            hash = (hash ^ (ascii_lower(label[j]) as u64)).wrapping_mul(FNV_PRIME);
            j = j + 1;
        }
        proof {
            assert(label@.take(label@.len() as int) =~= label@);
            assert(name@.take(i + 1).drop_last() =~= name@.take(i as int));
        }
        hash = (hash ^ 0u64).wrapping_mul(FNV_PRIME);
        i = i + 1;
    }
    proof {
        assert(name@.take(name@.len() as int) =~= name@);
    }
    hash
}

/// The mathematical value of one name-to-address mapping.
pub struct MappingV {
    pub name: Seq<Seq<u8>>,
    pub address: int,
    pub recency: u64,
    pub allocation: u64,
    pub expires_at: Option<u64>,
}

/// The mathematical value of one address family's state.
#[verifier::ext_equal]
pub struct FamilyV {
    pub start: int,
    pub end: int,
    pub mappings: Seq<MappingV>,
    pub next_recency: u64,
    pub next_allocation: u64,
}

/// Whether a mapping is still live at time `now` (milliseconds).
pub open spec fn is_live(m: MappingV, now: u64) -> bool {
    match m.expires_at {
        Some(e) => now < e,
        None => true,
    }
}

/// The liveness test at `now`, as a predicate.
pub open spec fn live_pred(now: u64) -> spec_fn(MappingV) -> bool {
    |m: MappingV| is_live(m, now)
}

/// The mappings still live at `now`, in order.
pub open spec fn live_mappings(ms: Seq<MappingV>, now: u64) -> Seq<MappingV> {
    ms.filter(live_pred(now))
}

/// Whether some mapping holds address `a`.
pub open spec fn addr_used(ms: Seq<MappingV>, a: int) -> bool {
    exists|k: int| 0 <= k < ms.len() && #[trigger] ms[k].address == a
}

/// Mapping `k` exists and its name equals `n`, ignoring ASCII case.
pub open spec fn name_at(ms: Seq<MappingV>, n: Seq<Seq<u8>>, k: int) -> bool {
    0 <= k < ms.len() && names_equal(ms[k].name, n)
}

/// Mapping `k` exists and holds address `a`.
pub open spec fn address_at(ms: Seq<MappingV>, a: int, k: int) -> bool {
    0 <= k < ms.len() && ms[k].address == a
}

/// Every address lies in `[start, end]`, and no address or (case-folded)
/// name is mapped twice.
pub open spec fn mappings_wf(ms: Seq<MappingV>, start: int, end: int) -> bool {
    &&& forall|k: int| 0 <= k < ms.len() ==> start <= #[trigger] ms[k].address <= end
    &&& forall|k1: int, k2: int|
        0 <= k1 < k2 < ms.len() ==> #[trigger] ms[k1].address != #[trigger] ms[k2].address
    &&& forall|k1: int, k2: int|
        0 <= k1 < k2 < ms.len() ==> !names_equal(#[trigger] ms[k1].name, #[trigger] ms[k2].name)
}

/// A family's range is a valid inclusive `u128` range and its mappings are
/// well formed.
pub open spec fn family_wf(f: FamilyV) -> bool {
    &&& 0 <= f.start <= f.end <= u128::MAX
    &&& mappings_wf(f.mappings, f.start, f.end)
}

/// The number of addresses in `[start, end]`.
pub open spec fn range_len(start: int, end: int) -> int {
    end - start + 1
}

/// How many probe steps it takes from candidate `c` to reach `b`, moving
/// up and wrapping from `end` back to `start`.
pub open spec fn cyc(start: int, end: int, c: int, b: int) -> int {
    if b >= c {
        b - c
    } else {
        b - start + (end - c + 1)
    }
}

/// `a` is the first address not in use that probing from `c` reaches.
pub open spec fn first_free(ms: Seq<MappingV>, start: int, end: int, c: int, a: int) -> bool {
    &&& start <= a <= end
    &&& !addr_used(ms, a)
    &&& forall|b: int|
        start <= b <= end && #[trigger] cyc(start, end, c, b) < cyc(start, end, c, a) ==> addr_used(
            ms,
            b,
        )
}

/// A name's first candidate address: the hash reduced into the range.
pub open spec fn spec_candidate(start: int, end: int, hash: u64) -> int {
    if range_len(start, end) <= u128::MAX {
        start + (hash as int) % range_len(start, end)
    } else {
        start + hash
    }
}

/// Mapping `a` was used less recently than `b` (ties: allocated earlier).
pub open spec fn key_lt(a: MappingV, b: MappingV) -> bool {
    a.recency < b.recency || (a.recency == b.recency && a.allocation < b.allocation)
}

/// Mapping `k` is the least recently used; among equals, the first.
pub open spec fn is_lru(ms: Seq<MappingV>, k: int) -> bool {
    &&& 0 <= k < ms.len()
    &&& forall|j: int| 0 <= j < ms.len() ==> !#[trigger] key_lt(ms[j], ms[k])
    &&& forall|j: int| 0 <= j < k ==> #[trigger] key_lt(ms[k], ms[j])
}

/// `x` clamped to the `u64` range.
pub open spec fn sat_u64(x: int) -> u64 {
    if x > u64::MAX {
        u64::MAX
    } else if x < 0 {
        0
    } else {
        x as u64
    }
}

/// The expiry of a mapping created at `now` under an optional TTL in whole
/// seconds.
pub open spec fn expiry(now: u64, ttl_secs: Option<u64>) -> Option<u64> {
    match ttl_secs {
        Some(t) => Some(sat_u64(now + t * 1000)),
        None => None,
    }
}

/// The remaining lifetime, in milliseconds, of a mapping with expiry `e`
/// at `now`; `None` when it never expires.
pub open spec fn remaining_ms(e: Option<u64>, now: u64) -> Option<u64> {
    match e {
        Some(x) => Some(sat_u64(x - now)),
        None => None,
    }
}

/// `ms` with mapping `k` marked as used at `recency`.
pub open spec fn touched(ms: Seq<MappingV>, k: int, recency: u64) -> Seq<MappingV> {
    ms.update(
        k,
        MappingV {
            name: ms[k].name,
            address: ms[k].address,
            recency,
            allocation: ms[k].allocation,
            expires_at: ms[k].expires_at,
        },
    )
}

/// The family after live mapping `k` of `ms` was used.
pub open spec fn after_touch(old: FamilyV, ms: Seq<MappingV>, k: int) -> FamilyV {
    FamilyV {
        start: old.start,
        end: old.end,
        mappings: touched(ms, k, old.next_recency),
        next_recency: old.next_recency.wrapping_add(1),
        next_allocation: old.next_allocation,
    }
}

/// The family after a new mapping of `n` to `a` was appended to `base`.
pub open spec fn after_insert(
    old: FamilyV,
    base: Seq<MappingV>,
    n: Seq<Seq<u8>>,
    a: int,
    now: u64,
    ttl_secs: Option<u64>,
) -> FamilyV {
    FamilyV {
        start: old.start,
        end: old.end,
        mappings: base.push(
            MappingV {
                name: n,
                address: a,
                recency: old.next_recency,
                allocation: old.next_allocation,
                expires_at: expiry(now, ttl_secs),
            },
        ),
        next_recency: old.next_recency.wrapping_add(1),
        next_allocation: old.next_allocation.wrapping_add(1),
    }
}

/// A new mapping of `n` is placed at the first free address probing from
/// its hashed candidate in `base`.
pub open spec fn insert_post(
    old: FamilyV,
    new: FamilyV,
    base: Seq<MappingV>,
    n: Seq<Seq<u8>>,
    salt: u64,
    now: u64,
    ttl_secs: Option<u64>,
    r: int,
    lifetime: Option<u64>,
) -> bool {
    &&& first_free(
        base,
        old.start,
        old.end,
        spec_candidate(old.start, old.end, spec_fnv1a(n, salt)),
        r,
    )
    &&& new == after_insert(old, base, n, r, now, ttl_secs)
    &&& lifetime == remaining_ms(expiry(now, ttl_secs), now)
}

/// What allocating `n` at `now` does to family `old`, giving `new`, address
/// `r`, and remaining lifetime `lifetime`. Expired mappings are dropped
/// first. A live mapping of the same (case-folded) name is reused and marked
/// used; otherwise, when the range is full, the least recently used mapping
/// is evicted, and the name gets a new mapping at the first free address
/// probing from its hashed candidate.
pub open spec fn allocate_post(
    old: FamilyV,
    new: FamilyV,
    n: Seq<Seq<u8>>,
    salt: u64,
    now: u64,
    ttl_secs: Option<u64>,
    r: int,
    lifetime: Option<u64>,
) -> bool {
    let ms = live_mappings(old.mappings, now);
    if exists|k: int| name_at(ms, n, k) {
        exists|k: int|
            {
                &&& name_at(ms, n, k)
                &&& r == ms[k].address
                &&& lifetime == remaining_ms(ms[k].expires_at, now)
                &&& new == after_touch(old, ms, k)
            }
    } else if ms.len() >= range_len(old.start, old.end) {
        exists|k: int|
            is_lru(ms, k) && insert_post(old, new, ms.remove(k), n, salt, now, ttl_secs, r, lifetime)
    } else {
        insert_post(old, new, ms, n, salt, now, ttl_secs, r, lifetime)
    }
}

/// What looking up address `a` at `now` does to family `old`, giving `new`
/// and the mapped name with its remaining lifetime. An address outside the
/// range leaves the family unchanged. Otherwise expired mappings are dropped
/// and a live mapping of `a` is marked used.
pub open spec fn lookup_post(
    old: FamilyV,
    new: FamilyV,
    a: int,
    now: u64,
    r: Option<(Seq<Seq<u8>>, Option<u64>)>,
) -> bool {
    if !(old.start <= a <= old.end) {
        r is None && new == old
    } else {
        let ms = live_mappings(old.mappings, now);
        if exists|k: int| address_at(ms, a, k) {
            exists|k: int|
                {
                    &&& address_at(ms, a, k)
                    &&& r == Some((ms[k].name, remaining_ms(ms[k].expires_at, now)))
                    &&& new == after_touch(old, ms, k)
                }
        } else {
            r is None && new == with_mappings(old, ms)
        }
    }
}

/// The view of a lookup result.
pub open spec fn lookup_view(r: Option<(Name, Option<u64>)>) -> Option<(Seq<Seq<u8>>, Option<u64>)> {
    match r {
        Some((n, l)) => Some((n@, l)),
        None => None,
    }
}

/// The name part of a lookup result.
pub open spec fn lookup_name(r: Option<(Seq<Seq<u8>>, Option<u64>)>) -> Option<Seq<Seq<u8>>> {
    match r {
        Some((n, _)) => Some(n),
        None => None,
    }
}

/// The view of an optional name.
pub open spec fn opt_name_view(r: Option<Name>) -> Option<Seq<Seq<u8>>> {
    match r {
        Some(n) => Some(n@),
        None => None,
    }
}

/// Distinct in-range addresses are no more than the range holds.
proof fn lemma_len_le_range(ms: Seq<MappingV>, start: int, end: int)
    requires
        start <= end,
        mappings_wf(ms, start, end),
    ensures
        ms.len() <= range_len(start, end),
{
    let addrs = ms.map_values(|m: MappingV| m.address);
    assert forall|k1: int, k2: int|
        0 <= k1 < addrs.len() && 0 <= k2 < addrs.len() && k1 != k2 implies addrs[k1]
        != addrs[k2] by {
        if k1 < k2 {
            assert(ms[k1].address != ms[k2].address);
        } else {
            assert(ms[k2].address != ms[k1].address);
        }
    }
    addrs.unique_seq_to_set();
    lemma_int_range(start, end + 1);
    assert forall|a: int| #[trigger] addrs.to_set().contains(a) implies set_int_range(
        start,
        end + 1,
    ).contains(a) by {
        let k = choose|k: int| 0 <= k < addrs.len() && addrs[k] == a;
        assert(ms[k].address == a);
    }
    lemma_len_subset(addrs.to_set(), set_int_range(start, end + 1));
}

/// Distinct in-range addresses cannot fill a range that is larger than
/// their number: some address in the range is free.
proof fn lemma_free_address_exists(ms: Seq<MappingV>, start: int, end: int)
    requires
        start <= end,
        mappings_wf(ms, start, end),
        ms.len() < range_len(start, end),
    ensures
        exists|f: int| start <= f <= end && !addr_used(ms, f),
{
    let addrs = ms.map_values(|m: MappingV| m.address);
    assert forall|k1: int, k2: int|
        0 <= k1 < addrs.len() && 0 <= k2 < addrs.len() && k1 != k2 implies addrs[k1]
        != addrs[k2] by {
        if k1 < k2 {
            assert(ms[k1].address != ms[k2].address);
        } else {
            assert(ms[k2].address != ms[k1].address);
        }
    }
    assert(addrs.no_duplicates());
    addrs.unique_seq_to_set();
    if forall|f: int| start <= f <= end ==> addr_used(ms, f) {
        lemma_int_range(start, end + 1);
        assert forall|f: int| #[trigger] set_int_range(start, end + 1).contains(f) implies addrs.to_set().contains(
            f,
        ) by {
            assert(addr_used(ms, f));
            let k = choose|k: int| 0 <= k < ms.len() && #[trigger] ms[k].address == f;
            assert(addrs[k] == f);
        }
        assert(set_int_range(start, end + 1).subset_of(addrs.to_set()));
        vstd::seq_lib::seq_to_set_is_finite(addrs);
        lemma_len_subset(set_int_range(start, end + 1), addrs.to_set());
        assert(false);
    }
}

/// Mappings `a` and `b` hold different addresses and different names
/// (ignoring ASCII case).
pub open spec fn distinct_mappings(a: MappingV, b: MappingV) -> bool {
    a.address != b.address && !names_equal(a.name, b.name)
}

/// One name-to-address mapping.
struct Mapping {
    name: Name,
    address: u128,
    recency: u64,
    allocation: u64,
    expires_at: Option<u64>,
}

impl View for Mapping {
    type V = MappingV;

    closed spec fn view(&self) -> MappingV {
        MappingV {
            name: self.name@,
            address: self.address as int,
            recency: self.recency,
            allocation: self.allocation,
            expires_at: self.expires_at,
        }
    }
}

fn clone_mapping(m: &Mapping) -> (r: Mapping)
    ensures
        r@ == m@,
{
    Mapping {
        name: m.name.clone(),
        address: m.address,
        recency: m.recency,
        allocation: m.allocation,
        expires_at: m.expires_at,
    }
}

/// The views of a sequence of mappings.
spec fn views(v: Seq<Mapping>) -> Seq<MappingV> {
    v.map_values(|m: Mapping| m@)
}

/// One address family: its inclusive range, its mappings, and the
/// counters that order them.
struct FamilyState {
    start: u128,
    end: u128,
    mappings: Vec<Mapping>,
    next_recency: u64,
    next_allocation: u64,
}

impl View for FamilyState {
    type V = FamilyV;

    closed spec fn view(&self) -> FamilyV {
        FamilyV {
            start: self.start as int,
            end: self.end as int,
            mappings: views(self.mappings@),
            next_recency: self.next_recency,
            next_allocation: self.next_allocation,
        }
    }
}

/// `f` with its mappings replaced by `ms`.
pub open spec fn with_mappings(f: FamilyV, ms: Seq<MappingV>) -> FamilyV {
    FamilyV {
        start: f.start,
        end: f.end,
        mappings: ms,
        next_recency: f.next_recency,
        next_allocation: f.next_allocation,
    }
}

impl FamilyState {
    /// An empty family over `[start, end]`, or `InvalidFakeIpRange` when
    /// `start > end`.
    fn new(start: u128, end: u128) -> (r: Result<FamilyState, Error>)
        ensures
            start > end <==> r is Err,
            r matches Err(e) ==> e == Error::InvalidFakeIpRange,
            r matches Ok(f) ==> f@ == (FamilyV {
                start: start as int,
                end: end as int,
                mappings: Seq::empty(),
                next_recency: 0,
                next_allocation: 0,
            }) && family_wf(f@),
    {
        if start > end {
            return Err(Error::InvalidFakeIpRange);
        }
        let f = FamilyState { start, end, mappings: Vec::new(), next_recency: 0, next_allocation: 0 };
        assert(views(f.mappings@) =~= Seq::<MappingV>::empty());
        Ok(f)
    }

    /// Whether this family is well formed: its range is valid and its
    /// mappings lie in it with no address or name mapped twice.
    fn check_wf(&self) -> (r: bool)
        ensures
            r == family_wf(self@),
    {
        let ghost ms = self@.mappings;
        let ghost (st, en) = (self.start as int, self.end as int);
        if self.start > self.end {
            return false;
        }
        let mut i: usize = 0;
        while i < self.mappings.len()
            invariant
                ms == self@.mappings,
                st == self@.start && en == self@.end,
                ms.len() == self.mappings@.len(),
                st <= en,
                0 <= i <= ms.len(),
                forall|k: int| 0 <= k < ms.len() ==> #[trigger] ms[k] == self.mappings@[k]@,
                forall|k: int| 0 <= k < i ==> st <= #[trigger] ms[k].address <= en,
                forall|k1: int, k2: int|
                    0 <= k1 < k2 < i ==> #[trigger] ms[k1].address != #[trigger] ms[k2].address,
                forall|k1: int, k2: int|
                    0 <= k1 < k2 < i ==> !names_equal(#[trigger] ms[k1].name, #[trigger] ms[k2].name),
            decreases ms.len() - i,
        {
            let m = &self.mappings[i];
            assert(ms[i as int] == m@);
            if m.address < self.start || m.address > self.end {
                assert(!(st <= ms[i as int].address <= en));
                return false;
            }
            let mut j: usize = 0;
            while j < i
                invariant
                    ms == self@.mappings,
                    ms.len() == self.mappings@.len(),
                    0 <= j <= i < ms.len(),
                    forall|k: int| 0 <= k < ms.len() ==> #[trigger] ms[k] == self.mappings@[k]@,
                    ms[i as int] == m@,
                    forall|k: int| 0 <= k < j ==> #[trigger] distinct_mappings(ms[k], ms[i as int]),
                decreases i - j,
            {
                let o = &self.mappings[j];
                assert(ms[j as int] == o@);
                if o.address == m.address || o.name.eq_ignore_case(&m.name) {
                    assert(ms[j as int].address == ms[i as int].address || names_equal(
                        ms[j as int].name,
                        ms[i as int].name,
                    ));
                    return false;
                }
                assert(distinct_mappings(ms[j as int], ms[i as int]));
                j = j + 1;
            }
            assert forall|k1: int, k2: int| 0 <= k1 < k2 < i + 1 implies !names_equal(
                #[trigger] ms[k1].name,
                #[trigger] ms[k2].name,
            ) && ms[k1].address != ms[k2].address by {
                if k2 == i {
                    assert(distinct_mappings(ms[k1], ms[i as int]));
                }
            }
            assert forall|k1: int, k2: int| 0 <= k1 < k2 < i + 1 implies #[trigger] ms[k1].address
                != #[trigger] ms[k2].address by {
                if k2 == i {
                    assert(distinct_mappings(ms[k1], ms[i as int]));
                }
            }
            i = i + 1;
        }
        true
    }

    /// Drops every mapping that has expired at `now`.
    fn purge(&mut self, now: u64)
        requires
            family_wf(old(self)@),
        ensures
            final(self)@ == with_mappings(old(self)@, live_mappings(old(self)@.mappings, now)),
            family_wf(final(self)@),
    {
        let ghost old_ms = self@.mappings;
        let ghost start = self@.start;
        let ghost end = self@.end;
        let mut kept: Vec<Mapping> = Vec::new();
        let mut i: usize = 0;
        while i < self.mappings.len()
            invariant
                old_ms == views(self.mappings@),
                old_ms.len() == self.mappings@.len(),
                start == self@.start,
                end == self@.end,
                mappings_wf(old_ms, start, end),
                0 <= i <= old_ms.len(),
                views(kept@) == old_ms.take(i as int).filter(live_pred(now)),
                forall|k: int|
                    0 <= k < kept@.len() ==> exists|j: int|
                        0 <= j < i && #[trigger] views(kept@)[k] == old_ms[j],
                mappings_wf(views(kept@), start, end),
            decreases old_ms.len() - i,
        {
            let m = &self.mappings[i];
            proof {
                assert(old_ms[i as int] == m@);
                assert(old_ms.take(i + 1) =~= old_ms.take(i as int).push(old_ms[i as int]));
                old_ms.take(i as int).lemma_filter_push(old_ms[i as int], live_pred(now));
            }
            let live = match m.expires_at {
                Some(e) => now < e,
                None => true,
            };
            if live {
                let ghost before = views(kept@);
                kept.push(clone_mapping(m));
                proof {
                    assert(views(kept@) =~= before.push(old_ms[i as int]));
                    let kv = views(kept@);
                    assert forall|k: int| 0 <= k < kv.len() implies exists|j: int|
                        0 <= j < i + 1 && #[trigger] kv[k] == old_ms[j] by {
                        if k < before.len() {
                            assert(kv[k] == before[k]);
                            let j = choose|j: int| 0 <= j < i && #[trigger] before[k] == old_ms[j];
                            assert(kv[k] == old_ms[j]);
                        } else {
                            assert(kv[k] == old_ms[i as int]);
                        }
                    }
                    assert forall|k1: int, k2: int| 0 <= k1 < k2 < kv.len() implies #[trigger] kv[k1].address
                        != #[trigger] kv[k2].address && !names_equal(kv[k1].name, kv[k2].name) by {
                        if k2 == kv.len() - 1 {
                            let j = choose|j: int| 0 <= j < i && #[trigger] before[k1] == old_ms[j];
                            assert(kv[k1] == old_ms[j]);
                            assert(old_ms[j].address != old_ms[i as int].address);
                        } else {
                            assert(kv[k1] == before[k1] && kv[k2] == before[k2]);
                        }
                    }
                    assert forall|k: int| 0 <= k < kv.len() implies start <= #[trigger] kv[k].address
                        <= end by {
                        if k < before.len() {
                            assert(kv[k] == before[k]);
                        }
                    }
                }
            }
            i = i + 1;
        }
        proof {
            assert(old_ms.take(old_ms.len() as int) =~= old_ms);
        }
        self.mappings = kept;
    }

    /// The index of the mapping whose name equals `name`, if any.
    fn find_name(&self, name: &Name) -> (r: Option<usize>)
        ensures
            r matches Some(k) ==> name_at(self@.mappings, name@, k as int),
            r is None ==> forall|k: int| !name_at(self@.mappings, name@, k),
    {
        let mut i: usize = 0;
        while i < self.mappings.len()
            invariant
                0 <= i <= self.mappings@.len(),
                self@.mappings.len() == self.mappings@.len(),
                forall|k: int| 0 <= k < i ==> !#[trigger] name_at(self@.mappings, name@, k),
            decreases self.mappings@.len() - i,
        {
            proof {
                assert(self@.mappings[i as int] == self.mappings@[i as int]@);
            }
            if self.mappings[i].name.eq_ignore_case(name) {
                return Some(i);
            }
            i = i + 1;
        }
        None
    }

    /// The index of the mapping holding `address`, if any.
    fn find_address(&self, address: u128) -> (r: Option<usize>)
        ensures
            r matches Some(k) ==> address_at(self@.mappings, address as int, k as int),
            r is None ==> !addr_used(self@.mappings, address as int),
    {
        let mut i: usize = 0;
        while i < self.mappings.len()
            invariant
                0 <= i <= self.mappings@.len(),
                self@.mappings.len() == self.mappings@.len(),
                forall|k: int| 0 <= k < i ==> #[trigger] self@.mappings[k].address != address,
            decreases self.mappings@.len() - i,
        {
            proof {
                assert(self@.mappings[i as int] == self.mappings@[i as int]@);
            }
            if self.mappings[i].address == address {
                return Some(i);
            }
            i = i + 1;
        }
        None
    }

    /// The index of the least recently used mapping.
    fn lru_index(&self) -> (r: usize)
        requires
            self@.mappings.len() > 0,
        ensures
            is_lru(self@.mappings, r as int),
    {
        let ghost ms = self@.mappings;
        let mut best: usize = 0;
        let mut i: usize = 1;
        proof {
            assert(ms[0] == self.mappings@[0]@);
        }
        while i < self.mappings.len()
            invariant
                ms == self@.mappings,
                ms.len() == self.mappings@.len(),
                1 <= i <= ms.len(),
                best < i,
                forall|j: int| 0 <= j < i ==> !#[trigger] key_lt(ms[j], ms[best as int]),
                forall|j: int| 0 <= j < best ==> #[trigger] key_lt(ms[best as int], ms[j]),
            decreases ms.len() - i,
        {
            proof {
                assert(ms[i as int] == self.mappings@[i as int]@);
                assert(ms[best as int] == self.mappings@[best as int]@);
            }
            let a = &self.mappings[i];
            let b = &self.mappings[best];
            if a.recency < b.recency || (a.recency == b.recency && a.allocation < b.allocation) {
                proof {
                    assert forall|j: int| 0 <= j < i + 1 implies !#[trigger] key_lt(ms[j], ms[i as int]) by {
                        if j < i {
                            assert(!key_lt(ms[j], ms[best as int]));
                        }
                    }
                    assert forall|j: int| 0 <= j < i implies #[trigger] key_lt(ms[i as int], ms[j]) by {
                        assert(!key_lt(ms[j], ms[best as int]));
                    }
                }
                best = i;
            }
            i = i + 1;
        }
        best
    }

    /// Whether some mapping holds `address`.
    fn uses(&self, address: u128) -> (r: bool)
        ensures
            r == addr_used(self@.mappings, address as int),
    {
        match self.find_address(address) {
            Some(_) => true,
            None => false,
        }
    }

    /// The first free address reached by circular probing from `c`.
    fn probe(&self, c: u128) -> (r: u128)
        requires
            family_wf(self@),
            self@.mappings.len() < range_len(self@.start, self@.end),
            self@.start <= c <= self@.end,
        ensures
            first_free(self@.mappings, self@.start, self@.end, c as int, r as int),
    {
        let ghost ms = self@.mappings;
        let ghost s = self@.start;
        let ghost e = self@.end;
        proof {
            lemma_free_address_exists(ms, s, e);
        }
        let ghost f = choose|f: int| s <= f <= e && !addr_used(ms, f);
        let mut a = c;
        while self.uses(a)
            invariant
                ms == self@.mappings,
                s == self@.start,
                e == self@.end,
                s == self.start,
                e == self.end,
                s <= f <= e,
                !addr_used(ms, f),
                s <= c <= e,
                s <= a <= e,
                cyc(s, e, c as int, a as int) <= cyc(s, e, c as int, f),
                forall|b: int|
                    s <= b <= e && #[trigger] cyc(s, e, c as int, b) < cyc(s, e, c as int, a as int)
                        ==> addr_used(ms, b),
            decreases cyc(s, e, c as int, f) - cyc(s, e, c as int, a as int),
        {
            proof {
                assert(a != f);
                assert(cyc(s, e, c as int, a as int) < cyc(s, e, c as int, f));
            }
            let ghost prev = a;
            a = if a == self.end {
                self.start
            } else {
                a + 1
            };
            proof {
                assert(cyc(s, e, c as int, a as int) == cyc(s, e, c as int, prev as int) + 1);
                assert forall|b: int|
                    s <= b <= e && #[trigger] cyc(s, e, c as int, b) < cyc(s, e, c as int, a as int)
                        implies addr_used(ms, b) by {
                    if cyc(s, e, c as int, b) == cyc(s, e, c as int, prev as int) {
                        assert(b == prev);
                    }
                }
            }
        }
        a
    }
}

/// The remaining lifetime of a mapping with expiry `e` at `now`.
fn remaining(e: Option<u64>, now: u64) -> (r: Option<u64>)
    ensures
        r == remaining_ms(e, now),
{
    match e {
        Some(x) => Some(x.saturating_sub(now)),
        None => None,
    }
}

/// The expiry of a mapping created at `now`.
fn expiry_at(now: u64, ttl_secs: Option<u64>) -> (r: Option<u64>)
    ensures
        r == expiry(now, ttl_secs),
{
    match ttl_secs {
        Some(t) => {
            let span: u64 = if t > u64::MAX / 1000 {
                assert(t * 1000 > u64::MAX) by (nonlinear_arith)
                    requires
                        t > u64::MAX / 1000,
                ;
                u64::MAX
            } else {
                assert(t * 1000 <= u64::MAX) by (nonlinear_arith)
                    requires
                        t <= u64::MAX / 1000,
                ;
                t * 1000
            };
            Some(now.saturating_add(span))
        },
        None => None,
    }
}

/// A name's first candidate address in `[start, end]`.
fn candidate(start: u128, end: u128, hash: u64) -> (r: u128)
    requires
        start <= end,
    ensures
        r == spec_candidate(start as int, end as int, hash),
        start <= r <= end,
{
    let dist = end - start;
    if dist == u128::MAX {
        start + hash as u128
    } else {
        start + (hash as u128) % (dist + 1)
    }
}

impl FamilyState {
    /// Marks mapping `k` as used now.
    fn touch(&mut self, k: usize)
        requires
            family_wf(old(self)@),
            k < old(self)@.mappings.len(),
        ensures
            final(self)@ == after_touch(old(self)@, old(self)@.mappings, k as int),
            family_wf(final(self)@),
    {
        let ghost ms = self@.mappings;
        let mut m = self.mappings.remove(k);
        m.recency = self.next_recency;
        self.mappings.insert(k, m);
        self.next_recency = self.next_recency.wrapping_add(1);
        proof {
            assert(views(self.mappings@) =~= touched(ms, k as int, old(self)@.next_recency));
            let t = touched(ms, k as int, old(self)@.next_recency);
            assert forall|k1: int, k2: int| 0 <= k1 < k2 < t.len() implies #[trigger] t[k1].address
                != #[trigger] t[k2].address && !names_equal(t[k1].name, t[k2].name) by {
                assert(t[k1].address == ms[k1].address && t[k1].name == ms[k1].name);
                assert(t[k2].address == ms[k2].address && t[k2].name == ms[k2].name);
            }
            assert forall|j: int| 0 <= j < t.len() implies self@.start <= #[trigger] t[j].address
                <= self@.end by {
                assert(t[j].address == ms[j].address);
            }
        }
    }

    /// Allocates or reuses `name`'s address at `now`.
    fn allocate(&mut self, name: Name, salt: u64, now: u64, ttl_secs: Option<u64>) -> (r: (
        u128,
        Option<u64>,
    ))
        requires
            family_wf(old(self)@),
        ensures
            family_wf(final(self)@),
            final(self)@.start == old(self)@.start,
            final(self)@.end == old(self)@.end,
            old(self)@.start <= r.0 <= old(self)@.end,
            allocate_post(old(self)@, final(self)@, name@, salt, now, ttl_secs, r.0 as int, r.1),
    {
        self.purge(now);
        let ghost ms = self@.mappings;
        let ghost mid = self@;
        match self.find_name(&name) {
            Some(k) => {
                proof {
                    assert(ms[k as int] == self.mappings@[k as int]@);
                }
                let lifetime = remaining(self.mappings[k].expires_at, now);
                let address = self.mappings[k].address;
                self.touch(k);
                proof {
                    assert(name_at(ms, name@, k as int));
                }
                return (address, lifetime);
            },
            None => {},
        }
        proof {
            lemma_len_le_range(ms, mid.start, mid.end);
        }
        let ghost full = ms.len() >= range_len(mid.start, mid.end);
        let ghost mut lru: int = 0;
        let dist = self.end - self.start;
        if (self.mappings.len() as u128) > dist {
            let k = self.lru_index();
            proof {
                lru = k as int;
            }
            self.mappings.remove(k);
            proof {
                assert(views(self.mappings@) =~= ms.remove(k as int));
                let b = ms.remove(k as int);
                assert forall|k1: int, k2: int| 0 <= k1 < k2 < b.len() implies #[trigger] b[k1].address
                    != #[trigger] b[k2].address && !names_equal(b[k1].name, b[k2].name) by {
                    let j1 = if k1 < k { k1 } else { k1 + 1 };
                    let j2 = if k2 < k { k2 } else { k2 + 1 };
                    assert(b[k1] == ms[j1] && b[k2] == ms[j2]);
                }
                assert forall|j: int| 0 <= j < b.len() implies mid.start <= #[trigger] b[j].address
                    <= mid.end by {
                    let jj = if j < k { j } else { j + 1 };
                    assert(b[j] == ms[jj]);
                }
            }
        }
        let ghost base = self@.mappings;
        proof {
            assert(forall|j: int| #![auto] 0 <= j < base.len() ==> !names_equal(base[j].name, name@))
                by {
                assert forall|j: int| 0 <= j < base.len() implies !names_equal(
                    #[trigger] base[j].name,
                    name@,
                ) by {
                    if full {
                        let jj = if j < lru { j } else { j + 1 };
                        assert(base[j] == ms[jj]);
                        assert(!name_at(ms, name@, jj));
                    } else {
                        assert(!name_at(ms, name@, j));
                    }
                }
            }
        }
        let hash = fnv1a(&name, salt);
        let c = candidate(self.start, self.end, hash);
        let address = self.probe(c);
        let recency = self.next_recency;
        let allocation = self.next_allocation;
        let expires_at = expiry_at(now, ttl_secs);
        self.next_recency = self.next_recency.wrapping_add(1);
        self.next_allocation = self.next_allocation.wrapping_add(1);
        self.mappings.push(Mapping { name, address, recency, allocation, expires_at });
        proof {
            let nm = views(self.mappings@);
            assert(nm =~= base.push(
                MappingV {
                    name: name@,
                    address: address as int,
                    recency,
                    allocation,
                    expires_at,
                },
            ));
            assert forall|k1: int, k2: int| 0 <= k1 < k2 < nm.len() implies #[trigger] nm[k1].address
                != #[trigger] nm[k2].address && !names_equal(nm[k1].name, nm[k2].name) by {
                if k2 == nm.len() - 1 {
                    assert(nm[k1] == base[k1]);
                    assert(!names_equal(base[k1].name, name@));
                    if nm[k1].address == address {
                        assert(addr_used(base, address as int));
                    }
                } else {
                    assert(nm[k1] == base[k1] && nm[k2] == base[k2]);
                }
            }
            assert forall|j: int| 0 <= j < nm.len() implies mid.start <= #[trigger] nm[j].address
                <= mid.end by {
                if j < base.len() {
                    assert(nm[j] == base[j]);
                }
            }
            assert(!exists|k: int| name_at(ms, name@, k));
            if full {
                assert(is_lru(ms, lru) && base == ms.remove(lru));
            } else {
                assert(base == ms);
            }
        }
        (address, remaining(expires_at, now))
    }

    /// Looks up the name mapped to `address` at `now`.
    fn lookup(&mut self, address: u128, now: u64) -> (r: Option<(Name, Option<u64>)>)
        requires
            family_wf(old(self)@),
        ensures
            family_wf(final(self)@),
            final(self)@.start == old(self)@.start,
            final(self)@.end == old(self)@.end,
            lookup_post(old(self)@, final(self)@, address as int, now, lookup_view(r)),
    {
        if address < self.start || address > self.end {
            return None;
        }
        self.purge(now);
        let ghost ms = self@.mappings;
        match self.find_address(address) {
            Some(k) => {
                proof {
                    assert(ms[k as int] == self.mappings@[k as int]@);
                }
                let name = self.mappings[k].name.clone();
                let lifetime = remaining(self.mappings[k].expires_at, now);
                self.touch(k);
                proof {
                    assert(address_at(ms, address as int, k as int));
                }
                Some((name, lifetime))
            },
            None => {
                proof {
                    assert(!exists|k: int| address_at(ms, address as int, k));
                }
                None
            },
        }
    }
}

/// The family state built from an optional configured range.
pub open spec fn empty_family(range: Option<(int, int)>) -> Option<FamilyV> {
    match range {
        Some((s, e)) => Some(
            FamilyV { start: s, end: e, mappings: Seq::empty(), next_recency: 0, next_allocation: 0 },
        ),
        None => None,
    }
}

/// Whether an optional range is invalid (its start after its end).
pub open spec fn range_invalid(range: Option<(int, int)>) -> bool {
    match range {
        Some((s, e)) => s > e,
        None => false,
    }
}

/// The view of an optional family.
spec fn opt_family_view(f: Option<FamilyState>) -> Option<FamilyV> {
    match f {
        Some(x) => Some(x@),
        None => None,
    }
}

/// A pool of synthetic IPv4 and/or IPv6 addresses keyed by DNS name.
///
/// Construct with [`FakeIpPool::builder`]. Each family has independent
/// mappings and LRU eviction state, so allocating IPv4 never displaces an
/// IPv6 mapping (or vice versa).
pub struct FakeIpPool {
    ipv4: Option<FamilyState>,
    ipv6: Option<FamilyState>,
    ttl_secs: Option<u64>,
}

impl FakeIpPool {
    /// The IPv4 family's state, when configured.
    pub closed spec fn ipv4(&self) -> Option<FamilyV> {
        opt_family_view(self.ipv4)
    }

    /// The IPv6 family's state, when configured.
    pub closed spec fn ipv6(&self) -> Option<FamilyV> {
        opt_family_view(self.ipv6)
    }

    /// The mapping lifetime in whole seconds, if mappings expire.
    pub closed spec fn ttl(&self) -> Option<u64> {
        self.ttl_secs
    }

    /// At least one family is configured, each configured family is well
    /// formed, and the IPv4 range lies within the `u32` address space.
    pub closed spec fn wf(&self) -> bool {
        &&& (self.ipv4 is Some || self.ipv6 is Some)
        &&& (self.ipv4 matches Some(f) ==> family_wf(f@) && f@.end <= u32::MAX)
        &&& (self.ipv6 matches Some(f) ==> family_wf(f@))
    }

    /// Whether this pool is well formed. Every pool this library builds is,
    /// and every operation keeps it so; callers outside verified code test
    /// it before handing a pool to a resolver.
    pub fn is_well_formed(&self) -> (r: bool)
        ensures
            r == self.wf(),
    {
        let v4 = match &self.ipv4 {
            Some(f) => f.check_wf() && f.end <= 0xffff_ffff,
            None => true,
        };
        let v6 = match &self.ipv6 {
            Some(f) => f.check_wf(),
            None => true,
        };
        (self.ipv4.is_some() || self.ipv6.is_some()) && v4 && v6
    }

    /// Starts building a Fake IP pool with no configured address families.
    pub fn builder() -> (r: FakeIpPoolBuilder)
        ensures
            r.ipv4() is None,
            r.ipv6() is None,
            r.configured_ttl() is None,
    {
        FakeIpPoolBuilder { ipv4: None, ipv6: None, ttl_secs: None }
    }

    /// Whether an IPv4 range is configured.
    pub fn ipv4_enabled(&self) -> (r: bool)
        ensures
            r == self.ipv4() is Some,
    {
        self.ipv4.is_some()
    }

    /// Whether an IPv6 range is configured.
    pub fn ipv6_enabled(&self) -> (r: bool)
        ensures
            r == self.ipv6() is Some,
    {
        self.ipv6.is_some()
    }

    /// The mapping lifetime in whole seconds, if mappings expire.
    pub fn ttl_secs(&self) -> (r: Option<u64>)
        ensures
            r == self.ttl(),
    {
        self.ttl_secs
    }

    /// Whether `address` lies in the configured IPv4 range.
    pub fn contains_ipv4(&self, address: u32) -> (r: bool)
        ensures
            r == (self.ipv4() matches Some(f) && f.start <= address <= f.end),
    {
        match &self.ipv4 {
            Some(f) => f.start <= address as u128 && address as u128 <= f.end,
            None => false,
        }
    }

    /// Whether `address` lies in the configured IPv6 range.
    pub fn contains_ipv6(&self, address: u128) -> (r: bool)
        ensures
            r == (self.ipv6() matches Some(f) && f.start <= address <= f.end),
    {
        match &self.ipv6 {
            Some(f) => f.start <= address && address <= f.end,
            None => false,
        }
    }

    /// Allocates or reuses this name's synthetic IPv4 address at `now_ms`,
    /// with the mapping's remaining lifetime in milliseconds (`None` when
    /// mappings never expire).
    ///
    /// Returns [`Error::FakeIpFamilyDisabled`] if no IPv4 range was
    /// configured. Reusing an existing mapping refreshes its LRU recency.
    pub fn allocate_ipv4_with_ttl(&mut self, name: Name, now_ms: u64) -> (r: Result<
        (u32, Option<u64>),
        Error,
    >)
        requires
            old(self).wf(),
        ensures
            final(self).wf(),
            final(self).ipv6() == old(self).ipv6(),
            final(self).ttl() == old(self).ttl(),
            r is Err <==> old(self).ipv4() is None,
            r matches Err(e) ==> e == Error::FakeIpFamilyDisabled && final(self).ipv4() == old(
                self,
            ).ipv4(),
            r matches Ok((a, l)) ==> allocate_post(
                old(self).ipv4()->0,
                final(self).ipv4()->0,
                name@,
                IPV4_HASH_SALT,
                now_ms,
                old(self).ttl(),
                a as int,
                l,
            ) && final(self).ipv4() is Some,
    {
        let ttl = self.ttl_secs;
        match &mut self.ipv4 {
            Some(f) => {
                let (a, l) = f.allocate(name, IPV4_HASH_SALT, now_ms, ttl);
                Ok((a as u32, l))
            },
            None => Err(Error::FakeIpFamilyDisabled),
        }
    }

    /// Allocates or reuses this name's synthetic IPv6 address at `now_ms`,
    /// with the mapping's remaining lifetime in milliseconds (`None` when
    /// mappings never expire).
    ///
    /// Returns [`Error::FakeIpFamilyDisabled`] if no IPv6 range was
    /// configured. Reusing an existing mapping refreshes its LRU recency.
    pub fn allocate_ipv6_with_ttl(&mut self, name: Name, now_ms: u64) -> (r: Result<
        (u128, Option<u64>),
        Error,
    >)
        requires
            old(self).wf(),
        ensures
            final(self).wf(),
            final(self).ipv4() == old(self).ipv4(),
            final(self).ttl() == old(self).ttl(),
            r is Err <==> old(self).ipv6() is None,
            r matches Err(e) ==> e == Error::FakeIpFamilyDisabled && final(self).ipv6() == old(
                self,
            ).ipv6(),
            r matches Ok((a, l)) ==> allocate_post(
                old(self).ipv6()->0,
                final(self).ipv6()->0,
                name@,
                IPV6_HASH_SALT,
                now_ms,
                old(self).ttl(),
                a as int,
                l,
            ) && final(self).ipv6() is Some,
    {
        let ttl = self.ttl_secs;
        match &mut self.ipv6 {
            Some(f) => Ok(f.allocate(name, IPV6_HASH_SALT, now_ms, ttl)),
            None => Err(Error::FakeIpFamilyDisabled),
        }
    }

    /// Allocates or reuses this name's synthetic IPv4 address at `now_ms`.
    ///
    /// Returns [`Error::FakeIpFamilyDisabled`] if no IPv4 range was
    /// configured. Reusing an existing mapping refreshes its LRU recency.
    pub fn allocate_ipv4(&mut self, name: Name, now_ms: u64) -> (r: Result<u32, Error>)
        requires
            old(self).wf(),
        ensures
            final(self).wf(),
            final(self).ipv6() == old(self).ipv6(),
            final(self).ttl() == old(self).ttl(),
            r is Err <==> old(self).ipv4() is None,
            r matches Err(e) ==> e == Error::FakeIpFamilyDisabled && final(self).ipv4() == old(
                self,
            ).ipv4(),
            r matches Ok(a) ==> exists|l: Option<u64>|
                #[trigger] allocate_post(
                    old(self).ipv4()->0,
                    final(self).ipv4()->0,
                    name@,
                    IPV4_HASH_SALT,
                    now_ms,
                    old(self).ttl(),
                    a as int,
                    l,
                ),
    {
        let ghost n = name@;
        let ghost before = *self;
        match self.allocate_ipv4_with_ttl(name, now_ms) {
            Ok((a, l)) => {
                assert(allocate_post(
                    before.ipv4()->0,
                    self.ipv4()->0,
                    n,
                    IPV4_HASH_SALT,
                    now_ms,
                    before.ttl(),
                    a as int,
                    l,
                ));
                let r: Result<u32, Error> = Ok(a);
                assert(r matches Ok(x) && x == a);
                r
            },
            Err(e) => Err(e),
        }
    }

    /// Allocates or reuses this name's synthetic IPv6 address at `now_ms`.
    ///
    /// Returns [`Error::FakeIpFamilyDisabled`] if no IPv6 range was
    /// configured. Reusing an existing mapping refreshes its LRU recency.
    pub fn allocate_ipv6(&mut self, name: Name, now_ms: u64) -> (r: Result<u128, Error>)
        requires
            old(self).wf(),
        ensures
            final(self).wf(),
            final(self).ipv4() == old(self).ipv4(),
            final(self).ttl() == old(self).ttl(),
            r is Err <==> old(self).ipv6() is None,
            r matches Err(e) ==> e == Error::FakeIpFamilyDisabled && final(self).ipv6() == old(
                self,
            ).ipv6(),
            r matches Ok(a) ==> exists|l: Option<u64>|
                #[trigger] allocate_post(
                    old(self).ipv6()->0,
                    final(self).ipv6()->0,
                    name@,
                    IPV6_HASH_SALT,
                    now_ms,
                    old(self).ttl(),
                    a as int,
                    l,
                ),
    {
        let ghost n = name@;
        let ghost before = *self;
        match self.allocate_ipv6_with_ttl(name, now_ms) {
            Ok((a, l)) => {
                assert(allocate_post(
                    before.ipv6()->0,
                    self.ipv6()->0,
                    n,
                    IPV6_HASH_SALT,
                    now_ms,
                    before.ttl(),
                    a as int,
                    l,
                ));
                let r: Result<u128, Error> = Ok(a);
                assert(r matches Ok(x) && x == a);
                r
            },
            Err(e) => Err(e),
        }
    }

    /// Returns the name mapped to `address` in the IPv4 pool at `now_ms`,
    /// with the mapping's remaining lifetime in milliseconds.
    ///
    /// A disabled family, an address outside the configured range, and an
    /// unknown or expired address all return `None`. A successful lookup
    /// refreshes the mapping's LRU recency.
    pub fn lookup_ipv4_with_ttl(&mut self, address: u32, now_ms: u64) -> (r: Option<
        (Name, Option<u64>),
    >)
        requires
            old(self).wf(),
        ensures
            final(self).wf(),
            final(self).ipv6() == old(self).ipv6(),
            final(self).ttl() == old(self).ttl(),
            old(self).ipv4() is None ==> r is None && final(self).ipv4() == old(self).ipv4(),
            old(self).ipv4() is Some ==> final(self).ipv4() is Some && lookup_post(
                old(self).ipv4()->0,
                final(self).ipv4()->0,
                address as int,
                now_ms,
                lookup_view(r),
            ),
    {
        match &mut self.ipv4 {
            Some(f) => f.lookup(address as u128, now_ms),
            None => None,
        }
    }

    /// Returns the name mapped to `address` in the IPv6 pool at `now_ms`,
    /// with the mapping's remaining lifetime in milliseconds.
    ///
    /// A disabled family, an address outside the configured range, and an
    /// unknown or expired address all return `None`. A successful lookup
    /// refreshes the mapping's LRU recency.
    pub fn lookup_ipv6_with_ttl(&mut self, address: u128, now_ms: u64) -> (r: Option<
        (Name, Option<u64>),
    >)
        requires
            old(self).wf(),
        ensures
            final(self).wf(),
            final(self).ipv4() == old(self).ipv4(),
            final(self).ttl() == old(self).ttl(),
            old(self).ipv6() is None ==> r is None && final(self).ipv6() == old(self).ipv6(),
            old(self).ipv6() is Some ==> final(self).ipv6() is Some && lookup_post(
                old(self).ipv6()->0,
                final(self).ipv6()->0,
                address as int,
                now_ms,
                lookup_view(r),
            ),
    {
        match &mut self.ipv6 {
            Some(f) => f.lookup(address, now_ms),
            None => None,
        }
    }

    /// Returns the name mapped to `address` in the IPv4 pool at `now_ms`.
    ///
    /// A disabled family, an address outside the configured range, and an
    /// unknown or expired address all return `None`. A successful lookup
    /// refreshes the mapping's LRU recency.
    pub fn lookup_ipv4(&mut self, address: u32, now_ms: u64) -> (r: Option<Name>)
        requires
            old(self).wf(),
        ensures
            final(self).wf(),
            final(self).ipv6() == old(self).ipv6(),
            final(self).ttl() == old(self).ttl(),
            old(self).ipv4() is None ==> r is None && final(self).ipv4() == old(self).ipv4(),
            old(self).ipv4() is Some ==> final(self).ipv4() is Some && exists|
                full: Option<(Seq<Seq<u8>>, Option<u64>)>,
            |
                {
                    &&& #[trigger] lookup_post(
                        old(self).ipv4()->0,
                        final(self).ipv4()->0,
                        address as int,
                        now_ms,
                        full,
                    )
                    &&& opt_name_view(r) == lookup_name(full)
                },
    {
        let ghost before = *self;
        let full = self.lookup_ipv4_with_ttl(address, now_ms);
        proof {
            if before.ipv4() is Some {
                assert(lookup_post(
                    before.ipv4()->0,
                    self.ipv4()->0,
                    address as int,
                    now_ms,
                    lookup_view(full),
                ));
            }
        }
        match full {
            Some((n, _)) => Some(n),
            None => None,
        }
    }

    /// Returns the name mapped to `address` in the IPv6 pool at `now_ms`.
    ///
    /// A disabled family, an address outside the configured range, and an
    /// unknown or expired address all return `None`. A successful lookup
    /// refreshes the mapping's LRU recency.
    pub fn lookup_ipv6(&mut self, address: u128, now_ms: u64) -> (r: Option<Name>)
        requires
            old(self).wf(),
        ensures
            final(self).wf(),
            final(self).ipv4() == old(self).ipv4(),
            final(self).ttl() == old(self).ttl(),
            old(self).ipv6() is None ==> r is None && final(self).ipv6() == old(self).ipv6(),
            old(self).ipv6() is Some ==> final(self).ipv6() is Some && exists|
                full: Option<(Seq<Seq<u8>>, Option<u64>)>,
            |
                {
                    &&& #[trigger] lookup_post(
                        old(self).ipv6()->0,
                        final(self).ipv6()->0,
                        address as int,
                        now_ms,
                        full,
                    )
                    &&& opt_name_view(r) == lookup_name(full)
                },
    {
        let ghost before = *self;
        let full = self.lookup_ipv6_with_ttl(address, now_ms);
        proof {
            if before.ipv6() is Some {
                assert(lookup_post(
                    before.ipv6()->0,
                    self.ipv6()->0,
                    address as int,
                    now_ms,
                    lookup_view(full),
                ));
            }
        }
        match full {
            Some((n, _)) => Some(n),
            None => None,
        }
    }
}

/// Builder for [`FakeIpPool`].
pub struct FakeIpPoolBuilder {
    ipv4: Option<(u32, u32)>,
    ipv6: Option<(u128, u128)>,
    ttl_secs: Option<u64>,
}

impl FakeIpPoolBuilder {
    /// The configured IPv4 range.
    pub closed spec fn ipv4(&self) -> Option<(int, int)> {
        match self.ipv4 {
            Some((s, e)) => Some((s as int, e as int)),
            None => None,
        }
    }

    /// The configured IPv6 range.
    pub closed spec fn ipv6(&self) -> Option<(int, int)> {
        match self.ipv6 {
            Some((s, e)) => Some((s as int, e as int)),
            None => None,
        }
    }

    /// The configured mapping lifetime in whole seconds.
    pub closed spec fn configured_ttl(&self) -> Option<u64> {
        self.ttl_secs
    }

    /// Configures the inclusive IPv4 allocation range, replacing any prior
    /// IPv4 range on this builder.
    pub fn ipv4_range(self, start: u32, end: u32) -> (r: Self)
        ensures
            r.ipv4() == Some((start as int, end as int)),
            r.ipv6() == self.ipv6(),
            r.configured_ttl() == self.configured_ttl(),
    {
        FakeIpPoolBuilder { ipv4: Some((start, end)), ipv6: self.ipv6, ttl_secs: self.ttl_secs }
    }

    /// Configures the inclusive IPv6 allocation range, replacing any prior
    /// IPv6 range on this builder.
    pub fn ipv6_range(self, start: u128, end: u128) -> (r: Self)
        ensures
            r.ipv6() == Some((start as int, end as int)),
            r.ipv4() == self.ipv4(),
            r.configured_ttl() == self.configured_ttl(),
    {
        FakeIpPoolBuilder { ipv4: self.ipv4, ipv6: Some((start, end)), ttl_secs: self.ttl_secs }
    }

    /// Makes every mapping expire `secs` whole seconds after it is created.
    /// Without this, mappings live until evicted; such a pool has no DNS TTL
    /// to advertise, so a resolver using it fails every Fake IP answer with
    /// `FakeIpTtlOutOfRange`.
    pub fn ttl(self, secs: u64) -> (r: Self)
        ensures
            r.configured_ttl() == Some(secs),
            r.ipv4() == self.ipv4(),
            r.ipv6() == self.ipv6(),
    {
        FakeIpPoolBuilder { ipv4: self.ipv4, ipv6: self.ipv6, ttl_secs: Some(secs) }
    }

    /// Validates the configured ranges and builds the pool.
    ///
    /// An invalid inclusive range returns [`Error::InvalidFakeIpRange`]
    /// (IPv4 checked first); otherwise at least one address family must be
    /// configured, else [`Error::FakeIpPoolUnconfigured`].
    pub fn build(self) -> (r: Result<FakeIpPool, Error>)
        ensures
            r matches Ok(p) ==> p.wf() && p.ipv4() == empty_family(self.ipv4()) && p.ipv6()
                == empty_family(self.ipv6()) && p.ttl() == self.configured_ttl(),
            (r matches Err(e) && e == Error::InvalidFakeIpRange) <==> (range_invalid(self.ipv4())
                || range_invalid(self.ipv6())),
            (r matches Err(e) && e == Error::FakeIpPoolUnconfigured) <==> (!range_invalid(
                self.ipv4(),
            ) && !range_invalid(self.ipv6()) && self.ipv4() is None && self.ipv6() is None),
            r is Ok <==> (!range_invalid(self.ipv4()) && !range_invalid(self.ipv6()) && (
            self.ipv4() is Some || self.ipv6() is Some)),
    {
        let ipv4 = match self.ipv4 {
            Some((s, e)) => match FamilyState::new(s as u128, e as u128) {
                Ok(f) => Some(f),
                Err(err) => return Err(err),
            },
            None => None,
        };
        let ipv6 = match self.ipv6 {
            Some((s, e)) => match FamilyState::new(s, e) {
                Ok(f) => Some(f),
                Err(err) => return Err(err),
            },
            None => None,
        };
        if ipv4.is_none() && ipv6.is_none() {
            return Err(Error::FakeIpPoolUnconfigured);
        }
        Ok(FakeIpPool { ipv4, ipv6, ttl_secs: self.ttl_secs })
    }
}

/// Keeping the live mappings of a sequence whose mappings are all live
/// keeps all of them.
proof fn lemma_filter_all_live(ms: Seq<MappingV>, now: u64)
    requires
        forall|k: int| 0 <= k < ms.len() ==> is_live(#[trigger] ms[k], now),
    ensures
        live_mappings(ms, now) == ms,
    decreases ms.len(),
{
    reveal(Seq::filter);
    if ms.len() > 0 {
        lemma_filter_all_live(ms.drop_last(), now);
        assert(ms.drop_last().push(ms.last()) =~= ms);
    }
}

/// Keeping some mappings of a well-formed sequence keeps it well formed.
proof fn lemma_filter_wf(ms: Seq<MappingV>, start: int, end: int, now: u64)
    requires
        mappings_wf(ms, start, end),
    ensures
        mappings_wf(live_mappings(ms, now), start, end),
    decreases ms.len(),
{
    reveal(Seq::filter);
    if ms.len() > 0 {
        let init = ms.drop_last();
        assert forall|k1: int, k2: int| 0 <= k1 < k2 < init.len() implies #[trigger] init[k1].address
            != #[trigger] init[k2].address && !names_equal(init[k1].name, init[k2].name) by {
            assert(init[k1] == ms[k1] && init[k2] == ms[k2]);
        }
        assert forall|k: int| 0 <= k < init.len() implies start <= #[trigger] init[k].address
            <= end by {
            assert(init[k] == ms[k]);
        }
        lemma_filter_wf(init, start, end, now);
        let fi = live_mappings(init, now);
        let last = ms.last();
        if is_live(last, now) {
            let f = fi.push(last);
            assert(live_mappings(ms, now) == f);
            assert forall|k1: int, k2: int| 0 <= k1 < k2 < f.len() implies #[trigger] f[k1].address
                != #[trigger] f[k2].address && !names_equal(f[k1].name, f[k2].name) by {
                if k2 == f.len() - 1 {
                    assert(f[k1] == fi[k1]);
                    assert(fi.contains(fi[k1]));
                    init.lemma_filter_contains_rev(live_pred(now), fi[k1]);
                    let j = choose|j: int| 0 <= j < init.len() && init[j] == fi[k1];
                    assert(ms[j] == init[j]);
                    assert(ms[j].address != ms[ms.len() - 1].address);
                    assert(!names_equal(ms[j].name, ms[ms.len() - 1].name));
                } else {
                    assert(f[k1] == fi[k1] && f[k2] == fi[k2]);
                }
            }
            assert forall|k: int| 0 <= k < f.len() implies start <= #[trigger] f[k].address
                <= end by {
                if k < fi.len() {
                    assert(f[k] == fi[k]);
                }
            }
            assert forall|k1: int, k2: int| 0 <= k1 < k2 < f.len() implies !names_equal(
                #[trigger] f[k1].name,
                #[trigger] f[k2].name,
            ) by {
                assert(f[k1].address != f[k2].address && !names_equal(f[k1].name, f[k2].name));
            }
        } else {
            assert(live_mappings(ms, now) == fi);
        }
    }
}

/// Every mapping that survives expiry is live.
proof fn lemma_live_all_live(ms: Seq<MappingV>, now: u64)
    ensures
        forall|k: int|
            0 <= k < live_mappings(ms, now).len() ==> is_live(
                #[trigger] live_mappings(ms, now)[k],
                now,
            ),
{
    assert forall|k: int| 0 <= k < live_mappings(ms, now).len() implies is_live(
        #[trigger] live_mappings(ms, now)[k],
        now,
    ) by {
        ms.lemma_filter_pred(live_pred(now), k);
    }
}

/// After an allocation with a positive remaining lifetime, every mapping of
/// the family is live, and the name's mapping sits at some index.
proof fn lemma_allocated_mapping(
    f0: FamilyV,
    f1: FamilyV,
    n: Seq<Seq<u8>>,
    salt: u64,
    now: u64,
    ttl_secs: Option<u64>,
    r: int,
    l: Option<u64>,
) -> (j: int)
    requires
        allocate_post(f0, f1, n, salt, now, ttl_secs, r, l),
        l != Some(0u64),
    ensures
        0 <= j < f1.mappings.len(),
        f1.mappings[j].address == r,
        names_equal(f1.mappings[j].name, n),
        remaining_ms(f1.mappings[j].expires_at, now) == l,
        forall|k: int| 0 <= k < f1.mappings.len() ==> is_live(#[trigger] f1.mappings[k], now),
{
    let ms = live_mappings(f0.mappings, now);
    lemma_live_all_live(f0.mappings, now);
    if exists|k: int| name_at(ms, n, k) {
        let k = choose|k: int|
            {
                &&& name_at(ms, n, k)
                &&& r == ms[k].address
                &&& l == remaining_ms(ms[k].expires_at, now)
                &&& f1 == after_touch(f0, ms, k)
            };
        assert forall|i: int| 0 <= i < f1.mappings.len() implies is_live(
            #[trigger] f1.mappings[i],
            now,
        ) by {
            assert(is_live(ms[i], now));
        }
        k
    } else {
        let base = if ms.len() >= range_len(f0.start, f0.end) {
            let k = choose|k: int|
                is_lru(ms, k) && insert_post(f0, f1, ms.remove(k), n, salt, now, ttl_secs, r, l);
            ms.remove(k)
        } else {
            ms
        };
        assert(insert_post(f0, f1, base, n, salt, now, ttl_secs, r, l));
        assert forall|i: int| 0 <= i < f1.mappings.len() implies is_live(
            #[trigger] f1.mappings[i],
            now,
        ) by {
            if i < base.len() {
                if ms.len() >= range_len(f0.start, f0.end) {
                    let k = choose|k: int|
                        is_lru(ms, k) && insert_post(
                            f0,
                            f1,
                            ms.remove(k),
                            n,
                            salt,
                            now,
                            ttl_secs,
                            r,
                            l,
                        );
                    assert(base == ms.remove(k));
                    let ii = if i < k { i } else { i + 1 };
                    assert(f1.mappings[i] == ms[ii]);
                } else {
                    assert(f1.mappings[i] == ms[i]);
                }
            }
        }
        f1.mappings.len() - 1
    }
}

/// Looking up the address a name was just given, at the same time and with
/// the mapping still live, gives back that name (up to ASCII case) with the
/// same remaining lifetime.
pub proof fn lemma_lookup_after_allocate(
    f0: FamilyV,
    f1: FamilyV,
    f2: FamilyV,
    n: Seq<Seq<u8>>,
    salt: u64,
    now: u64,
    ttl_secs: Option<u64>,
    r: int,
    l: Option<u64>,
    res: Option<(Seq<Seq<u8>>, Option<u64>)>,
)
    requires
        family_wf(f1),
        allocate_post(f0, f1, n, salt, now, ttl_secs, r, l),
        l != Some(0u64),
        lookup_post(f1, f2, r, now, res),
    ensures
        res matches Some((m, l2)) && names_equal(m, n) && l2 == l,
{
    let j = lemma_allocated_mapping(f0, f1, n, salt, now, ttl_secs, r, l);
    lemma_filter_all_live(f1.mappings, now);
    let ms = live_mappings(f1.mappings, now);
    assert(address_at(ms, r, j));
    let k = choose|k: int|
        {
            &&& address_at(ms, r, k)
            &&& res == Some((ms[k].name, remaining_ms(ms[k].expires_at, now)))
            &&& f2 == after_touch(f1, ms, k)
        };
    if k != j {
        if k < j {
            assert(ms[k].address != ms[j].address);
        } else {
            assert(ms[j].address != ms[k].address);
        }
    }
}

/// Allocating a name again while its mapping is still live gives the same
/// address: allocation is reused, not repeated.
pub proof fn lemma_allocate_reuses_live_mapping(
    f0: FamilyV,
    f1: FamilyV,
    f2: FamilyV,
    n: Seq<Seq<u8>>,
    n2: Seq<Seq<u8>>,
    salt: u64,
    now: u64,
    now2: u64,
    ttl_secs: Option<u64>,
    r1: int,
    l1: Option<u64>,
    r2: int,
    l2: Option<u64>,
)
    requires
        family_wf(f1),
        allocate_post(f0, f1, n, salt, now, ttl_secs, r1, l1),
        allocate_post(f1, f2, n2, salt, now2, ttl_secs, r2, l2),
        names_equal(n, n2),
        match l1 {
            Some(x) => x > 0 && now2 < now + x,
            None => true,
        },
    ensures
        r2 == r1,
{
    let j = lemma_allocated_mapping(f0, f1, n, salt, now, ttl_secs, r1, l1);
    let m = f1.mappings[j];
    assert(is_live(m, now2)) by {
        assert(is_live(m, now));
    }
    let ms2 = live_mappings(f1.mappings, now2);
    f1.mappings.lemma_filter_contains(live_pred(now2), j);
    let k0 = choose|k: int| 0 <= k < ms2.len() && ms2[k] == m;
    lemma_names_equal_transitive(m.name, n, n2);
    assert(name_at(ms2, n2, k0));
    let k = choose|k: int|
        {
            &&& name_at(ms2, n2, k)
            &&& r2 == ms2[k].address
            &&& l2 == remaining_ms(ms2[k].expires_at, now2)
            &&& f2 == after_touch(f1, ms2, k)
        };
    assert(ms2.contains(ms2[k]));
    f1.mappings.lemma_filter_contains_rev(live_pred(now2), ms2[k]);
    let j2 = choose|i: int| 0 <= i < f1.mappings.len() && f1.mappings[i] == ms2[k];
    lemma_names_equal_symmetric(f1.mappings[j2].name, n2);
    lemma_names_equal_transitive(m.name, n2, f1.mappings[j2].name);
    if j2 != j {
        if j < j2 {
            assert(!names_equal(f1.mappings[j].name, f1.mappings[j2].name));
        } else {
            lemma_names_equal_symmetric(m.name, f1.mappings[j2].name);
            assert(!names_equal(f1.mappings[j2].name, f1.mappings[j].name));
        }
    }
}

/// At most one address is the first free one probing from a candidate.
proof fn lemma_first_free_unique(ms: Seq<MappingV>, start: int, end: int, c: int, a1: int, a2: int)
    requires
        start <= c <= end,
        first_free(ms, start, end, c, a1),
        first_free(ms, start, end, c, a2),
    ensures
        a1 == a2,
{
    if a1 != a2 {
        assert(cyc(start, end, c, a1) != cyc(start, end, c, a2));
        if cyc(start, end, c, a1) < cyc(start, end, c, a2) {
            assert(addr_used(ms, a1));
        } else {
            assert(addr_used(ms, a2));
        }
    }
}

/// A name's candidate lies in its range.
proof fn lemma_candidate_in_range(start: int, end: int, hash: u64)
    requires
        0 <= start <= end <= u128::MAX,
    ensures
        start <= spec_candidate(start, end, hash) <= end,
{
}

/// Allocation is deterministic: the same family state, name, and time give
/// the same address, lifetime, and resulting state.
pub proof fn lemma_allocate_is_deterministic(
    f0: FamilyV,
    f1: FamilyV,
    f2: FamilyV,
    n: Seq<Seq<u8>>,
    salt: u64,
    now: u64,
    ttl_secs: Option<u64>,
    r1: int,
    l1: Option<u64>,
    r2: int,
    l2: Option<u64>,
)
    requires
        family_wf(f0),
        allocate_post(f0, f1, n, salt, now, ttl_secs, r1, l1),
        allocate_post(f0, f2, n, salt, now, ttl_secs, r2, l2),
    ensures
        f1 == f2,
        r1 == r2,
        l1 == l2,
{
    let ms = live_mappings(f0.mappings, now);
    lemma_filter_wf(f0.mappings, f0.start, f0.end, now);
    let c = spec_candidate(f0.start, f0.end, spec_fnv1a(n, salt));
    lemma_candidate_in_range(f0.start, f0.end, spec_fnv1a(n, salt));
    if exists|k: int| name_at(ms, n, k) {
        let k1 = choose|k: int|
            {
                &&& name_at(ms, n, k)
                &&& r1 == ms[k].address
                &&& l1 == remaining_ms(ms[k].expires_at, now)
                &&& f1 == after_touch(f0, ms, k)
            };
        let k2 = choose|k: int|
            {
                &&& name_at(ms, n, k)
                &&& r2 == ms[k].address
                &&& l2 == remaining_ms(ms[k].expires_at, now)
                &&& f2 == after_touch(f0, ms, k)
            };
        if k1 != k2 {
            lemma_names_equal_symmetric(ms[k2].name, n);
            lemma_names_equal_transitive(ms[k1].name, n, ms[k2].name);
            if k1 < k2 {
                assert(!names_equal(ms[k1].name, ms[k2].name));
            } else {
                lemma_names_equal_symmetric(ms[k1].name, ms[k2].name);
                assert(!names_equal(ms[k2].name, ms[k1].name));
            }
        }
    } else if ms.len() >= range_len(f0.start, f0.end) {
        let k1 = choose|k: int|
            is_lru(ms, k) && insert_post(f0, f1, ms.remove(k), n, salt, now, ttl_secs, r1, l1);
        let k2 = choose|k: int|
            is_lru(ms, k) && insert_post(f0, f2, ms.remove(k), n, salt, now, ttl_secs, r2, l2);
        if k1 < k2 {
            assert(key_lt(ms[k2], ms[k1]));
        }
        if k2 < k1 {
            assert(key_lt(ms[k1], ms[k2]));
        }
        lemma_first_free_unique(ms.remove(k1), f0.start, f0.end, c, r1, r2);
    } else {
        lemma_first_free_unique(ms, f0.start, f0.end, c, r1, r2);
    }
}

/// Which names the resolver answers locally with Fake IP addresses.
pub struct FakeIpPolicy {
    matcher: DomainMatcher<()>,
}

impl FakeIpPolicy {
    /// The selecting patterns, in insertion order.
    pub closed spec fn patterns(&self) -> Seq<PatternV> {
        self.matcher.patterns()
    }

    /// Starts building a policy that selects nothing.
    pub fn builder() -> (r: FakeIpPolicyBuilder)
        ensures
            r.patterns() == Seq::<PatternV>::empty(),
    {
        FakeIpPolicyBuilder { matcher: DomainMatcher::new() }
    }

    /// Whether some pattern selects `name`.
    pub fn matches(&self, name: &Name) -> (r: bool)
        ensures
            r == any_match(self.patterns(), name@),
    {
        self.matcher.resolve(name).is_some()
    }
}

/// Builder for [`FakeIpPolicy`].
pub struct FakeIpPolicyBuilder {
    matcher: DomainMatcher<()>,
}

impl FakeIpPolicyBuilder {
    /// The selecting patterns added so far, in insertion order.
    pub closed spec fn patterns(&self) -> Seq<PatternV> {
        self.matcher.patterns()
    }

    /// Adds a selecting pattern.
    pub fn rule(self, pattern: DomainPattern) -> (r: Self)
        ensures
            r.patterns() == self.patterns().push(pattern@),
    {
        let mut b = self;
        b.matcher.insert(pattern, ());
        b
    }

    /// Builds the policy.
    pub fn build(self) -> (r: FakeIpPolicy)
        ensures
            r.patterns() == self.patterns(),
    {
        FakeIpPolicy { matcher: self.matcher }
    }
}

/// Mapping `m` maps (a name equal, ignoring ASCII case, to) `n` to address
/// `a` with expiry `e`.
pub open spec fn maps(m: MappingV, n: Seq<Seq<u8>>, a: int, e: Option<u64>) -> bool {
    names_equal(m.name, n) && m.address == a && m.expires_at == e
}

/// Family `f` holds a mapping of `n` to `a` with expiry `e`.
pub open spec fn holds(f: FamilyV, n: Seq<Seq<u8>>, a: int, e: Option<u64>) -> bool {
    exists|k: int| 0 <= k < f.mappings.len() && #[trigger] maps(f.mappings[k], n, a, e)
}

/// A mapping with expiry `e` is still live at `now`.
pub open spec fn live_until(e: Option<u64>, now: u64) -> bool {
    match e {
        Some(x) => now < x,
        None => true,
    }
}

/// A held mapping that is live at `now` survives expiry at `now`: it sits
/// at some index of the live mappings.
proof fn lemma_held_survives_expiry(
    f: FamilyV,
    n: Seq<Seq<u8>>,
    a: int,
    e: Option<u64>,
    now: u64,
) -> (k: int)
    requires
        holds(f, n, a, e),
        live_until(e, now),
    ensures
        0 <= k < live_mappings(f.mappings, now).len(),
        maps(live_mappings(f.mappings, now)[k], n, a, e),
{
    let j = choose|j: int| 0 <= j < f.mappings.len() && #[trigger] maps(f.mappings[j], n, a, e);
    let ms = live_mappings(f.mappings, now);
    assert(is_live(f.mappings[j], now));
    f.mappings.lemma_filter_contains(live_pred(now), j);
    choose|k: int| 0 <= k < ms.len() && ms[k] == f.mappings[j]
}

/// In a well-formed family, at most one live mapping holds an address.
proof fn lemma_live_address_unique(f: FamilyV, now: u64, a: int, k1: int, k2: int)
    requires
        family_wf(f),
        address_at(live_mappings(f.mappings, now), a, k1),
        address_at(live_mappings(f.mappings, now), a, k2),
    ensures
        k1 == k2,
{
    let ms = live_mappings(f.mappings, now);
    lemma_filter_wf(f.mappings, f.start, f.end, now);
    if k1 < k2 {
        assert(ms[k1].address != ms[k2].address);
    } else if k2 < k1 {
        assert(ms[k2].address != ms[k1].address);
    }
}

/// In a well-formed family, at most one live mapping has a name.
proof fn lemma_live_name_unique(f: FamilyV, now: u64, n: Seq<Seq<u8>>, k1: int, k2: int)
    requires
        family_wf(f),
        name_at(live_mappings(f.mappings, now), n, k1),
        name_at(live_mappings(f.mappings, now), n, k2),
    ensures
        k1 == k2,
{
    let ms = live_mappings(f.mappings, now);
    lemma_filter_wf(f.mappings, f.start, f.end, now);
    lemma_names_equal_symmetric(ms[k2].name, n);
    lemma_names_equal_transitive(ms[k1].name, n, ms[k2].name);
    if k1 < k2 {
        assert(!names_equal(ms[k1].name, ms[k2].name));
    } else if k2 < k1 {
        lemma_names_equal_symmetric(ms[k1].name, ms[k2].name);
        assert(!names_equal(ms[k2].name, ms[k1].name));
    }
}

/// An allocation leaves the family holding a mapping of the allocated name
/// to the returned address, live at the time of the call when its remaining
/// lifetime is positive; the returned expiry is that mapping's.
pub proof fn lemma_allocate_holds(
    f0: FamilyV,
    f1: FamilyV,
    n: Seq<Seq<u8>>,
    salt: u64,
    now: u64,
    ttl_secs: Option<u64>,
    r: int,
    l: Option<u64>,
) -> (e: Option<u64>)
    requires
        allocate_post(f0, f1, n, salt, now, ttl_secs, r, l),
        l != Some(0u64),
    ensures
        holds(f1, n, r, e),
        live_until(e, now),
        remaining_ms(e, now) == l,
{
    let j = lemma_allocated_mapping(f0, f1, n, salt, now, ttl_secs, r, l);
    assert(maps(f1.mappings[j], n, r, f1.mappings[j].expires_at));
    assert(is_live(f1.mappings[j], now));
    f1.mappings[j].expires_at
}

/// Looking up the address of any mapping still live at the time of the
/// lookup gives back its name (up to ASCII case) and remaining lifetime,
/// and the mapping stays held. Chained with [`lemma_lookup_keeps_held`] and
/// [`lemma_allocate_keeps_held`], a lookup finds any live mapping however
/// many calls came between its allocation and the lookup.
pub proof fn lemma_lookup_finds_held(
    f: FamilyV,
    f2: FamilyV,
    n: Seq<Seq<u8>>,
    a: int,
    e: Option<u64>,
    now: u64,
    res: Option<(Seq<Seq<u8>>, Option<u64>)>,
)
    requires
        family_wf(f),
        holds(f, n, a, e),
        live_until(e, now),
        lookup_post(f, f2, a, now, res),
    ensures
        res matches Some((m, l)) && names_equal(m, n) && l == remaining_ms(e, now),
        holds(f2, n, a, e),
{
    let ms = live_mappings(f.mappings, now);
    let k = lemma_held_survives_expiry(f, n, a, e, now);
    assert(f.start <= a <= f.end) by {
        let j = choose|j: int| 0 <= j < f.mappings.len() && #[trigger] maps(f.mappings[j], n, a, e);
        assert(f.start <= f.mappings[j].address <= f.end);
    }
    assert(address_at(ms, a, k));
    let k2 = choose|k2: int|
        {
            &&& address_at(ms, a, k2)
            &&& res == Some((ms[k2].name, remaining_ms(ms[k2].expires_at, now)))
            &&& f2 == after_touch(f, ms, k2)
        };
    lemma_live_address_unique(f, now, a, k, k2);
    assert(maps(f2.mappings[k], n, a, e));
}

/// A lookup of any address keeps every mapping that is live at the time of
/// the lookup.
pub proof fn lemma_lookup_keeps_held(
    f: FamilyV,
    f2: FamilyV,
    n: Seq<Seq<u8>>,
    a: int,
    e: Option<u64>,
    a2: int,
    now: u64,
    res: Option<(Seq<Seq<u8>>, Option<u64>)>,
)
    requires
        holds(f, n, a, e),
        live_until(e, now),
        lookup_post(f, f2, a2, now, res),
    ensures
        holds(f2, n, a, e),
{
    if f.start <= a2 <= f.end {
        let ms = live_mappings(f.mappings, now);
        let k = lemma_held_survives_expiry(f, n, a, e, now);
        if exists|k2: int| address_at(ms, a2, k2) {
            let k2 = choose|k2: int|
                {
                    &&& address_at(ms, a2, k2)
                    &&& res == Some((ms[k2].name, remaining_ms(ms[k2].expires_at, now)))
                    &&& f2 == after_touch(f, ms, k2)
                };
            assert(maps(f2.mappings[k], n, a, e));
        } else {
            assert(maps(f2.mappings[k], n, a, e));
        }
    }
}

/// Allocating a name (up to ASCII case) whose mapping is still live reuses
/// that mapping: the same address and remaining lifetime come back, and no
/// mapping is added. Chained with [`lemma_lookup_keeps_held`] and
/// [`lemma_allocate_keeps_held`], this holds however many calls came
/// between the two allocations.
pub proof fn lemma_allocate_reuses_held(
    f: FamilyV,
    f2: FamilyV,
    n: Seq<Seq<u8>>,
    n2: Seq<Seq<u8>>,
    a: int,
    e: Option<u64>,
    salt: u64,
    now: u64,
    ttl_secs: Option<u64>,
    r: int,
    l: Option<u64>,
)
    requires
        family_wf(f),
        holds(f, n, a, e),
        live_until(e, now),
        names_equal(n, n2),
        allocate_post(f, f2, n2, salt, now, ttl_secs, r, l),
    ensures
        r == a,
        l == remaining_ms(e, now),
        holds(f2, n, a, e),
        f2.mappings.len() == live_mappings(f.mappings, now).len(),
{
    let ms = live_mappings(f.mappings, now);
    let k = lemma_held_survives_expiry(f, n, a, e, now);
    lemma_names_equal_transitive(ms[k].name, n, n2);
    assert(name_at(ms, n2, k));
    let k2 = choose|k2: int|
        {
            &&& name_at(ms, n2, k2)
            &&& r == ms[k2].address
            &&& l == remaining_ms(ms[k2].expires_at, now)
            &&& f2 == after_touch(f, ms, k2)
        };
    lemma_live_name_unique(f, now, n2, k, k2);
    assert(maps(f2.mappings[k], n, a, e));
}

/// An allocation keeps every mapping that is live at the time of the call
/// unless it evicts it, which only happens to the least recently used live
/// mapping when the family is full.
pub proof fn lemma_allocate_keeps_held(
    f: FamilyV,
    f2: FamilyV,
    n: Seq<Seq<u8>>,
    a: int,
    e: Option<u64>,
    n2: Seq<Seq<u8>>,
    salt: u64,
    now: u64,
    ttl_secs: Option<u64>,
    r: int,
    l: Option<u64>,
)
    requires
        holds(f, n, a, e),
        live_until(e, now),
        allocate_post(f, f2, n2, salt, now, ttl_secs, r, l),
        live_mappings(f.mappings, now).len() < range_len(f.start, f.end) || forall|k: int|
            #[trigger] is_lru(live_mappings(f.mappings, now), k) ==> live_mappings(
                f.mappings,
                now,
            )[k].address != a,
    ensures
        holds(f2, n, a, e),
{
    let ms = live_mappings(f.mappings, now);
    let k = lemma_held_survives_expiry(f, n, a, e, now);
    if exists|k2: int| name_at(ms, n2, k2) {
        let k2 = choose|k2: int|
            {
                &&& name_at(ms, n2, k2)
                &&& r == ms[k2].address
                &&& l == remaining_ms(ms[k2].expires_at, now)
                &&& f2 == after_touch(f, ms, k2)
            };
        assert(maps(f2.mappings[k], n, a, e));
    } else if ms.len() >= range_len(f.start, f.end) {
        let v = choose|v: int|
            is_lru(ms, v) && insert_post(f, f2, ms.remove(v), n2, salt, now, ttl_secs, r, l);
        assert(ms[v].address != a);
        assert(v != k);
        let kk = if k < v { k } else { k - 1 };
        assert(ms.remove(v)[kk] == ms[k]);
        assert(maps(f2.mappings[kk], n, a, e));
    } else {
        assert(maps(f2.mappings[k], n, a, e));
    }
}

/// Family `f0` becomes `f1` at `now` by a call that does not evict a
/// mapping of address `a`: a lookup of any address, an allocation of any
/// name that finds the family not full or evicts a mapping of another
/// address, or a call on the other family (which leaves this one as it
/// was).
pub open spec fn step_keeping(f0: FamilyV, f1: FamilyV, a: int, now: u64) -> bool {
    ||| exists|a2: int, res: Option<(Seq<Seq<u8>>, Option<u64>)>|
        #[trigger] lookup_post(f0, f1, a2, now, res)
    ||| exists|n2: Seq<Seq<u8>>, salt: u64, ttl_secs: Option<u64>, r: int, l: Option<u64>|
        {
            &&& #[trigger] allocate_post(f0, f1, n2, salt, now, ttl_secs, r, l)
            &&& (live_mappings(f0.mappings, now).len() < range_len(f0.start, f0.end) || forall|
                k: int,
            |
                #[trigger] is_lru(live_mappings(f0.mappings, now), k) ==> live_mappings(
                    f0.mappings,
                    now,
                )[k].address != a)
        }
    ||| f1 == f0
}

/// A mapping stays held through any run of calls at times at which it is
/// still live, as long as none of them evicts it; with
/// [`lemma_lookup_finds_held`] and [`lemma_allocate_reuses_held`], a later
/// lookup of its address finds its name and a later allocation of its name
/// reuses its address, however many calls came between.
pub proof fn lemma_held_survives_steps(
    fs: Seq<FamilyV>,
    nows: Seq<u64>,
    n: Seq<Seq<u8>>,
    a: int,
    e: Option<u64>,
)
    requires
        fs.len() == nows.len() + 1,
        holds(fs[0], n, a, e),
        forall|i: int| 0 <= i < nows.len() ==> live_until(e, #[trigger] nows[i]),
        forall|i: int| 0 <= i < nows.len() ==> #[trigger] step_keeping(fs[i], fs[i + 1], a, nows[i]),
    ensures
        holds(fs.last(), n, a, e),
    decreases nows.len(),
{
    if nows.len() > 0 {
        let j = nows.len() - 1;
        let fs1 = fs.drop_last();
        let nows1 = nows.drop_last();
        assert forall|i: int| 0 <= i < nows1.len() implies live_until(e, #[trigger] nows1[i]) && step_keeping(
            fs1[i],
            fs1[i + 1],
            a,
            nows1[i],
        ) by {
            assert(nows1[i] == nows[i] && fs1[i] == fs[i] && fs1[i + 1] == fs[i + 1]);
            assert(live_until(e, nows[i]));
            assert(step_keeping(fs[i], fs[i + 1], a, nows[i]));
        }
        lemma_held_survives_steps(fs1, nows1, n, a, e);
        let f0 = fs[j];
        let f1 = fs[j + 1];
        let now = nows[j];
        assert(fs1.last() == f0);
        assert(live_until(e, nows[j]));
        assert(step_keeping(fs[j], fs[j + 1], a, nows[j]));
        if exists|a2: int, res: Option<(Seq<Seq<u8>>, Option<u64>)>|
            #[trigger] lookup_post(f0, f1, a2, now, res) {
            let (a2, res) = choose|a2: int, res: Option<(Seq<Seq<u8>>, Option<u64>)>|
                #[trigger] lookup_post(f0, f1, a2, now, res);
            lemma_lookup_keeps_held(f0, f1, n, a, e, a2, now, res);
        } else if f1 == f0 {
        } else {
            let (n2, salt, ttl_secs, r, l) = choose|
                n2: Seq<Seq<u8>>,
                salt: u64,
                ttl_secs: Option<u64>,
                r: int,
                l: Option<u64>,
            |
                {
                    &&& #[trigger] allocate_post(f0, f1, n2, salt, now, ttl_secs, r, l)
                    &&& (live_mappings(f0.mappings, now).len() < range_len(f0.start, f0.end)
                        || forall|k: int|
                        #[trigger] is_lru(live_mappings(f0.mappings, now), k) ==> live_mappings(
                            f0.mappings,
                            now,
                        )[k].address != a)
                };
            lemma_allocate_keeps_held(f0, f1, n, a, e, n2, salt, now, ttl_secs, r, l);
        }
    }
}

/// Every mapping of `f` was last used before the family's next recency
/// and allocated before its next allocation number.
pub open spec fn counters_fresh(f: FamilyV) -> bool {
    forall|k: int|
        0 <= k < f.mappings.len() ==> #[trigger] f.mappings[k].recency < f.next_recency
            && f.mappings[k].allocation < f.next_allocation
}

/// Neither of the family's counters is at its last value, so the next use
/// or allocation does not wrap it around.
pub open spec fn counters_room(f: FamilyV) -> bool {
    f.next_recency < u64::MAX && f.next_allocation < u64::MAX
}

/// Mapping `j` of `f` was used more recently than every other mapping.
pub open spec fn newest(f: FamilyV, j: int) -> bool {
    &&& 0 <= j < f.mappings.len()
    &&& forall|k: int|
        0 <= k < f.mappings.len() && k != j ==> #[trigger] f.mappings[k].recency
            < f.mappings[j].recency
}

/// A newly configured family has fresh counters.
pub proof fn lemma_empty_family_fresh(range: Option<(int, int)>)
    requires
        range is Some,
    ensures
        counters_fresh(empty_family(range)->0),
{
}

/// Mapping `m` was last used before `recency` and allocated before
/// `allocation`.
pub open spec fn used_before(m: MappingV, recency: u64, allocation: u64) -> bool {
    m.recency < recency && m.allocation < allocation
}

/// The live mappings of a family with fresh counters have fresh counters.
proof fn lemma_live_fresh(f: FamilyV, now: u64)
    requires
        counters_fresh(f),
    ensures
        forall|k: int|
            0 <= k < live_mappings(f.mappings, now).len() ==> #[trigger] used_before(
                live_mappings(f.mappings, now)[k],
                f.next_recency,
                f.next_allocation,
            ),
{
    let ms = live_mappings(f.mappings, now);
    assert forall|k: int| 0 <= k < ms.len() implies #[trigger] used_before(
        ms[k],
        f.next_recency,
        f.next_allocation,
    ) by {
        assert(ms.contains(ms[k]));
        f.mappings.lemma_filter_contains_rev(live_pred(now), ms[k]);
        let j = choose|j: int| 0 <= j < f.mappings.len() && f.mappings[j] == ms[k];
        assert(f.mappings[j].recency < f.next_recency);
    }
}

/// Marking live mapping `k` used keeps fresh counters fresh and makes that
/// mapping the newest, while the recency counter does not wrap.
proof fn lemma_touch_fresh(f0: FamilyV, ms: Seq<MappingV>, k: int)
    requires
        counters_room(f0),
        0 <= k < ms.len(),
        forall|i: int|
            0 <= i < ms.len() ==> #[trigger] used_before(ms[i], f0.next_recency, f0.next_allocation),
    ensures
        counters_fresh(after_touch(f0, ms, k)),
        newest(after_touch(f0, ms, k), k),
{
    let f1 = after_touch(f0, ms, k);
    assert(f1.next_recency == f0.next_recency + 1);
    assert(used_before(ms[k], f0.next_recency, f0.next_allocation));
    assert forall|i: int| 0 <= i < f1.mappings.len() implies #[trigger] f1.mappings[i].recency
        < f1.next_recency && f1.mappings[i].allocation < f1.next_allocation by {
        assert(used_before(ms[i], f0.next_recency, f0.next_allocation));
    }
    assert forall|i: int| 0 <= i < f1.mappings.len() && i != k implies #[trigger] f1.mappings[i].recency
        < f1.mappings[k].recency by {
        assert(used_before(ms[i], f0.next_recency, f0.next_allocation));
    }
}

/// While the counters do not wrap, an allocation keeps them fresh and
/// leaves the name's mapping, at the returned address, newer than every
/// other mapping: a reused mapping is marked used, and a new one is created
/// as the newest. So the least recently used mapping that a later
/// allocation into a full family evicts is the one used longest ago.
pub proof fn lemma_allocate_marks_newest(
    f0: FamilyV,
    f1: FamilyV,
    n: Seq<Seq<u8>>,
    salt: u64,
    now: u64,
    ttl_secs: Option<u64>,
    r: int,
    l: Option<u64>,
)
    requires
        counters_fresh(f0),
        counters_room(f0),
        allocate_post(f0, f1, n, salt, now, ttl_secs, r, l),
    ensures
        counters_fresh(f1),
        exists|j: int|
            #[trigger] newest(f1, j) && f1.mappings[j].address == r && names_equal(
                f1.mappings[j].name,
                n,
            ),
{
    let ms = live_mappings(f0.mappings, now);
    lemma_live_fresh(f0, now);
    if exists|k: int| name_at(ms, n, k) {
        let k = choose|k: int|
            {
                &&& name_at(ms, n, k)
                &&& r == ms[k].address
                &&& l == remaining_ms(ms[k].expires_at, now)
                &&& f1 == after_touch(f0, ms, k)
            };
        lemma_touch_fresh(f0, ms, k);
    } else {
        let base = if ms.len() >= range_len(f0.start, f0.end) {
            let v = choose|v: int|
                is_lru(ms, v) && insert_post(f0, f1, ms.remove(v), n, salt, now, ttl_secs, r, l);
            ms.remove(v)
        } else {
            ms
        };
        assert(insert_post(f0, f1, base, n, salt, now, ttl_secs, r, l));
        assert forall|i: int| 0 <= i < base.len() implies #[trigger] base[i].recency
            < f0.next_recency && base[i].allocation < f0.next_allocation by {
            if ms.len() >= range_len(f0.start, f0.end) {
                let v = choose|v: int|
                    is_lru(ms, v) && insert_post(f0, f1, ms.remove(v), n, salt, now, ttl_secs, r, l);
                assert(base == ms.remove(v));
                let ii = if i < v { i } else { i + 1 };
                assert(base[i] == ms[ii]);
                assert(used_before(ms[ii], f0.next_recency, f0.next_allocation));
            } else {
                assert(used_before(ms[i], f0.next_recency, f0.next_allocation));
            }
        }
        let j = base.len() as int;
        assert(f1.next_recency == f0.next_recency + 1);
        assert(f1.next_allocation == f0.next_allocation + 1);
        assert forall|k: int| 0 <= k < f1.mappings.len() && k != j implies #[trigger] f1.mappings[k].recency
            < f1.mappings[j].recency by {
            assert(f1.mappings[k] == base[k]);
        }
        assert(newest(f1, j));
        assert forall|k: int| 0 <= k < f1.mappings.len() implies #[trigger] f1.mappings[k].recency
            < f1.next_recency && f1.mappings[k].allocation < f1.next_allocation by {
            if k < j {
                assert(f1.mappings[k] == base[k]);
            }
        }
    }
}

/// While the counters do not wrap, a lookup keeps them fresh, and a lookup
/// that finds its address leaves that mapping newer than every other.
pub proof fn lemma_lookup_marks_newest(
    f0: FamilyV,
    f1: FamilyV,
    a: int,
    now: u64,
    res: Option<(Seq<Seq<u8>>, Option<u64>)>,
)
    requires
        counters_fresh(f0),
        counters_room(f0),
        lookup_post(f0, f1, a, now, res),
    ensures
        counters_fresh(f1),
        res is Some ==> exists|j: int| #[trigger] newest(f1, j) && f1.mappings[j].address == a,
{
    if f0.start <= a <= f0.end {
        let ms = live_mappings(f0.mappings, now);
        lemma_live_fresh(f0, now);
        if exists|k: int| address_at(ms, a, k) {
            let k = choose|k: int|
                {
                    &&& address_at(ms, a, k)
                    &&& res == Some((ms[k].name, remaining_ms(ms[k].expires_at, now)))
                    &&& f1 == after_touch(f0, ms, k)
                };
            lemma_touch_fresh(f0, ms, k);
        } else {
            assert forall|i: int| 0 <= i < f1.mappings.len() implies #[trigger] f1.mappings[i].recency
                < f1.next_recency && f1.mappings[i].allocation < f1.next_allocation by {
                assert(used_before(ms[i], f0.next_recency, f0.next_allocation));
            }
        }
    }
}

impl FakeIpPool {
    /// Every configured family of a well-formed pool keeps its invariants:
    /// at least one family is configured; every address lies in its
    /// family's range (IPv4 ones within the `u32` space); no address and no
    /// name (ignoring ASCII case) is mapped twice, so the name-to-address
    /// and address-to-name directions are inverse; and a family holds at
    /// most as many mappings as its range has addresses.
    pub proof fn lemma_families_wf(&self)
        requires
            self.wf(),
        ensures
            self.ipv4() is Some || self.ipv6() is Some,
            self.ipv4() matches Some(f) ==> family_wf(f) && f.end <= u32::MAX && f.mappings.len()
                <= range_len(f.start, f.end),
            self.ipv6() matches Some(f) ==> family_wf(f) && f.mappings.len() <= range_len(
                f.start,
                f.end,
            ),
    {
        if let Some(f) = self.ipv4() {
            lemma_len_le_range(f.mappings, f.start, f.end);
        }
        if let Some(f) = self.ipv6() {
            lemma_len_le_range(f.mappings, f.start, f.end);
        }
    }
}

} // verus!
