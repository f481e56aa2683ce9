use vstd::prelude::*;

use crate::error::Error;
use vstd::string::StringExecFns;
use vstd::string::StringSliceAdditionalSpecFns;

verus! {

/// ASCII lowercase of one byte; every other byte is unchanged.
pub open spec fn lower_byte(b: u8) -> u8 {
    if 65 <= b && b <= 90 {
        (b + 32) as u8
    } else {
        b
    }
}

/// Two labels are equal ignoring ASCII case.
pub open spec fn label_eq_ci(a: Seq<u8>, b: Seq<u8>) -> bool {
    &&& a.len() == b.len()
    &&& forall|i: int| 0 <= i < a.len() ==> #[trigger] lower_byte(a[i]) == lower_byte(b[i])
}

/// Two names (label sequences) are equal ignoring ASCII case.
pub open spec fn names_equal(a: Seq<Seq<u8>>, b: Seq<Seq<u8>>) -> bool {
    &&& a.len() == b.len()
    &&& forall|i: int| 0 <= i < a.len() ==> #[trigger] label_eq_ci(a[i], b[i])
}

/// Case-insensitive name equality is symmetric.
pub proof fn lemma_names_equal_symmetric(a: Seq<Seq<u8>>, b: Seq<Seq<u8>>)
    requires
        names_equal(a, b),
    ensures
        names_equal(b, a),
{
    assert forall|i: int| 0 <= i < b.len() implies #[trigger] label_eq_ci(b[i], a[i]) by {
        assert(label_eq_ci(a[i], b[i]));
    }
}

/// Case-insensitive name equality is transitive.
pub proof fn lemma_names_equal_transitive(a: Seq<Seq<u8>>, b: Seq<Seq<u8>>, c: Seq<Seq<u8>>)
    requires
        names_equal(a, b),
        names_equal(b, c),
    ensures
        names_equal(a, c),
{
    assert forall|i: int| 0 <= i < a.len() implies #[trigger] label_eq_ci(a[i], c[i]) by {
        assert(label_eq_ci(a[i], b[i]));
        assert(label_eq_ci(b[i], c[i]));
        assert forall|j: int| 0 <= j < a[i].len() implies #[trigger] lower_byte(a[i][j]) == lower_byte(
            c[i][j],
        ) by {
            assert(lower_byte(a[i][j]) == lower_byte(b[i][j]));
            assert(lower_byte(b[i][j]) == lower_byte(c[i][j]));
        }
    }
}

/// The rightmost labels of `n` equal `s`, ignoring ASCII case.
pub open spec fn name_ends_with(n: Seq<Seq<u8>>, s: Seq<Seq<u8>>) -> bool {
    &&& s.len() <= n.len()
    &&& forall|i: int|
        0 <= i < s.len() ==> #[trigger] label_eq_ci(n[n.len() - s.len() + i], s[i])
}

/// Encoded wire length of a name: one length byte per label plus its bytes,
/// plus the terminating root byte.
pub open spec fn labels_wire_len(ls: Seq<Seq<u8>>) -> nat
    decreases ls.len(),
{
    if ls.len() == 0 {
        1
    } else {
        labels_wire_len(ls.drop_last()) + ls.last().len() + 1
    }
}

/// Splits bytes at every `.` (46); always yields at least one part.
pub open spec fn split_dots(s: Seq<u8>) -> Seq<Seq<u8>>
    decreases s.len(),
{
    if s.len() == 0 {
        seq![Seq::<u8>::empty()]
    } else {
        let p = split_dots(s.drop_last());
        if s.last() == 46 {
            p.push(Seq::<u8>::empty())
        } else {
            p.update(p.len() - 1, p.last().push(s.last()))
        }
    }
}

/// The error a presentation-form label part causes, if any.
pub open spec fn part_error(p: Seq<u8>) -> Option<Error> {
    if p.len() == 0 {
        Some(Error::InvalidName)
    } else if exists|j: int| 0 <= j < p.len() && p[j] >= 128 {
        Some(Error::InvalidName)
    } else if p.len() > 63 {
        Some(Error::LabelTooLong { offset: 0 })
    } else {
        None
    }
}

/// The first error among `parts[i..]`, in order.
pub open spec fn first_part_error(parts: Seq<Seq<u8>>, i: int) -> Option<Error>
    decreases parts.len() - i,
{
    if i < 0 || i >= parts.len() {
        None
    } else {
        match part_error(parts[i]) {
            Some(e) => Some(e),
            None => first_part_error(parts, i + 1),
        }
    }
}

/// Parses a name's presentation form (given as bytes): the empty string and
/// `"."` are the root; one trailing dot is stripped; the rest is split at
/// dots and every label must be nonempty, ASCII, and at most 63 bytes; the
/// whole name must encode to at most 255 bytes.
pub open spec fn parse_name_bytes(s: Seq<u8>) -> Result<Seq<Seq<u8>>, Error> {
    if s.len() == 0 || s =~= seq![46u8] {
        Ok(Seq::empty())
    } else {
        let t = if s.last() == 46 {
            s.drop_last()
        } else {
            s
        };
        let parts = split_dots(t);
        match first_part_error(parts, 0) {
            Some(e) => Err(e),
            None => if labels_wire_len(parts) > 255 {
                Err(Error::NameTooLong)
            } else {
                Ok(parts)
            },
        }
    }
}

pub proof fn lemma_split_dots_nonempty(s: Seq<u8>)
    ensures
        split_dots(s).len() >= 1,
    decreases s.len(),
{
    if s.len() > 0 {
        lemma_split_dots_nonempty(s.drop_last());
    }
}

pub proof fn lemma_wire_len_take(ls: Seq<Seq<u8>>, i: int)
    requires
        0 <= i < ls.len(),
    ensures
        labels_wire_len(ls.take(i + 1)) == labels_wire_len(ls.take(i)) + ls[i].len() + 1,
{
    assert(ls.take(i + 1).drop_last() =~= ls.take(i));
}

pub proof fn lemma_wire_len_mono(ls: Seq<Seq<u8>>, i: int)
    requires
        0 <= i <= ls.len(),
    ensures
        labels_wire_len(ls.take(i)) <= labels_wire_len(ls),
    decreases ls.len() - i,
{
    if i < ls.len() {
        lemma_wire_len_take(ls, i);
        lemma_wire_len_mono(ls, i + 1);
    } else {
        assert(ls.take(i) =~= ls);
    }
}

/// Lowercases one ASCII byte.
pub fn ascii_lower(b: u8) -> (r: u8)
    ensures
        r == lower_byte(b),
{
    if b >= 65 && b <= 90 {
        b + 32
    } else {
        b
    }
}

/// Whether two labels are equal ignoring ASCII case.
pub fn label_eq_ignore_case(a: &[u8], b: &[u8]) -> (r: bool)
    ensures
        r == label_eq_ci(a@, b@),
{
    if a.len() != b.len() {
        return false;
    }
    let mut i: usize = 0;
    while i < a.len()
        invariant
            a@.len() == b@.len(),
            0 <= i <= a@.len(),
            forall|j: int| 0 <= j < i ==> #[trigger] lower_byte(a@[j]) == lower_byte(b@[j]),
        decreases a@.len() - i,
    {
        if ascii_lower(a[i]) != ascii_lower(b[i]) {
            return false;
        }
        i = i + 1;
    }
    true
}

/// Copies `buf[start..end]` into a fresh vector.
pub fn copy_bytes(buf: &[u8], start: usize, end: usize) -> (v: Vec<u8>)
    requires
        start <= end <= buf@.len(),
    ensures
        v@ == buf@.subrange(start as int, end as int),
{
    let mut v: Vec<u8> = Vec::new();
    let mut i = start;
    while i < end
        invariant
            start <= i <= end <= buf@.len(),
            v@ == buf@.subrange(start as int, i as int),
        decreases end - i,
    {
        v.push(buf[i]);
        assert(v@ =~= buf@.subrange(start as int, i + 1));
        i = i + 1;
    }
    v
}

/// Appends `bytes` to `buf`.
pub fn append_bytes(buf: &mut Vec<u8>, bytes: &[u8])
    ensures
        final(buf)@ == old(buf)@ + bytes@,
{
    let mut i: usize = 0;
    while i < bytes.len()
        invariant
            0 <= i <= bytes@.len(),
            buf@ == old(buf)@ + bytes@.subrange(0, i as int),
        decreases bytes@.len() - i,
    {
        buf.push(bytes[i]);
        assert(buf@ =~= old(buf)@ + bytes@.subrange(0, i + 1));
        i = i + 1;
    }
    assert(bytes@.subrange(0, bytes@.len() as int) =~= bytes@);
}

/// The view of a vector of labels: each label's bytes.
pub open spec fn labels_view(v: Seq<Vec<u8>>) -> Seq<Seq<u8>> {
    v.map_values(|l: Vec<u8>| l@)
}

pub proof fn lemma_labels_view(v: Seq<Vec<u8>>)
    ensures
        labels_view(v).len() == v.len(),
        forall|j: int| 0 <= j < v.len() ==> #[trigger] labels_view(v)[j] == v[j]@,
{
}

/// Copies a vector of labels.
pub fn clone_labels(v: &Vec<Vec<u8>>) -> (r: Vec<Vec<u8>>)
    ensures
        labels_view(r@) == labels_view(v@),
{
    let mut r: Vec<Vec<u8>> = Vec::new();
    let mut i: usize = 0;
    while i < v.len()
        invariant
            0 <= i <= v@.len(),
            labels_view(r@) == labels_view(v@).take(i as int),
        decreases v@.len() - i,
    {
        let l = copy_bytes(v[i].as_slice(), 0, v[i].len());
        assert(l@ =~= v@[i as int]@);
        let ghost old_r = r@;
        r.push(l);
        proof {
            assert(r@ == old_r.push(l));
            lemma_labels_view(r@);
            lemma_labels_view(old_r);
            lemma_labels_view(v@);
            assert forall|j: int| 0 <= j < i + 1 implies #[trigger] labels_view(r@)[j]
                == labels_view(v@).take(i + 1)[j] by {
                if j < i {
                    assert(labels_view(old_r)[j] == labels_view(v@).take(i as int)[j]);
                }
            }
            assert(labels_view(r@) =~= labels_view(v@).take(i + 1));
        }
        i = i + 1;
    }
    assert(labels_view(v@).take(v@.len() as int) =~= labels_view(v@));
    r
}

/// The text of bytes read as UTF-8, each invalid sequence replaced by
/// U+FFFD.
pub uninterp spec fn utf8_lossy(bytes: Seq<u8>) -> Seq<char>;

/// Calls `String::from_utf8_lossy` and takes ownership of its result: the
/// bytes read as UTF-8 with invalid sequences replaced; the result is named
/// [`utf8_lossy`] and depends on the bytes alone.
#[verifier::external_body]
fn utf8_lossy_string(bytes: &[u8]) -> (r: String)
    ensures
        r@ == utf8_lossy(bytes@),
{
    String::from_utf8_lossy(bytes).into_owned()
}

/// Each label's text followed by a dot.
pub open spec fn labels_text(ls: Seq<Seq<u8>>) -> Seq<char>
    decreases ls.len(),
{
    if ls.len() == 0 {
        Seq::empty()
    } else {
        labels_text(ls.drop_last()) + utf8_lossy(ls.last()) + seq!['.']
    }
}

/// A name's presentation form: `.` for the root, else its labels' text,
/// each followed by a dot.
pub open spec fn spec_name_text(ls: Seq<Seq<u8>>) -> Seq<char> {
    if ls.len() == 0 {
        seq!['.']
    } else {
        labels_text(ls)
    }
}

/// An owned, case-preserving DNS domain name: a sequence of labels, most
/// specific first. The root name has zero labels.
///
/// Equality compares labels ignoring ASCII case (DNS names are
/// case-insensitive), while the original case is kept so encoding
/// round-trips byte for byte.
#[derive(Debug)]
pub struct Name(pub Vec<Vec<u8>>);

impl View for Name {
    type V = Seq<Seq<u8>>;

    open spec fn view(&self) -> Seq<Seq<u8>> {
        labels_view(self.0@)
    }
}

impl Clone for Name {
    fn clone(&self) -> (r: Self)
        ensures
            r@ == self@,
    {
        Name(clone_labels(&self.0))
    }
}

impl Name {
    /// The root name (zero labels).
    pub fn root() -> (r: Name)
        ensures
            r@ == Seq::<Seq<u8>>::empty(),
    {
        let r = Name(Vec::new());
        assert(r@ =~= Seq::<Seq<u8>>::empty());
        r
    }

    /// Builds a name from raw labels without any validation; encoding
    /// rejects labels over 63 bytes and names over 255 bytes.
    pub fn from_labels(labels: Vec<Vec<u8>>) -> (r: Name)
        ensures
            r@ == labels_view(labels@),
    {
        Name(labels)
    }

    /// Parses a name from its ASCII presentation form (e.g. `"example.com"`
    /// or `"example.com."`).
    ///
    /// A trailing dot is accepted and stripped. Empty labels, labels over 63
    /// bytes, non-ASCII bytes, or a total encoded length over 255 bytes are
    /// rejected.
    pub fn from_ascii(s: &str) -> (r: Result<Name, Error>)
        ensures
            match parse_name_bytes(s.spec_bytes()) {
                Ok(ls) => r matches Ok(n) && n@ == ls,
                Err(e) => r == Err::<Name, Error>(e),
            },
    {
        let b = s.as_bytes();
        let r = name_from_bytes(b, 0);
        assert(b@.subrange(0, b@.len() as int) =~= b@);
        r
    }

    /// This name's labels, most specific first.
    pub fn labels(&self) -> (r: &[Vec<u8>])
        ensures
            labels_view(r@) == self@,
    {
        self.0.as_slice()
    }

    /// The presentation form of this name: `.` for the root, else each
    /// label (invalid UTF-8 replaced) followed by a dot.
    pub fn to_string(&self) -> (r: String)
        ensures
            r@ == spec_name_text(self@),
    {
        let mut s = String::new();
        if self.0.len() == 0 {
            s.append(".");
            proof {
                reveal_strlit(".");
            }
            return s;
        }
        let mut i: usize = 0;
        while i < self.0.len()
            invariant
                self@.len() == self.0@.len(),
                0 < self@.len(),
                0 <= i <= self@.len(),
                s@ == labels_text(self@.take(i as int)),
            decreases self@.len() - i,
        {
            proof {
                assert(self@[i as int] == self.0@[i as int]@);
                assert(self@.take(i + 1).drop_last() =~= self@.take(i as int));
                reveal_strlit(".");
            }
            let text = utf8_lossy_string(self.0[i].as_slice());
            s.append(text.as_str());
            s.append(".");
            i = i + 1;
        }
        proof {
            assert(self@.take(self@.len() as int) =~= self@);
        }
        s
    }

    /// Whether this is the root name (zero labels).
    pub fn is_root(&self) -> (r: bool)
        ensures
            r == (self@.len() == 0),
    {
        self.0.len() == 0
    }

    /// The number of labels in this name (0 for the root name).
    pub fn label_count(&self) -> (r: usize)
        ensures
            r == self@.len(),
    {
        self.0.len()
    }

    /// Rejects a name whose encoded length exceeds 255 bytes.
    pub fn check_total_length(&self) -> (r: Result<(), Error>)
        ensures
            labels_wire_len(self@) <= 255 ==> r is Ok,
            labels_wire_len(self@) > 255 ==> r == Err::<(), Error>(Error::NameTooLong),
    {
        let mut total: usize = 1;
        let mut i: usize = 0;
        while i < self.0.len()
            invariant
                0 <= i <= self@.len(),
                self@.len() == self.0@.len(),
                total == labels_wire_len(self@.take(i as int)),
                total <= 255,
            decreases self@.len() - i,
        {
            proof {
                lemma_wire_len_take(self@, i as int);
                assert(self@[i as int] == self.0@[i as int]@);
            }
            if self.0[i].len() > 255 {
                proof {
                    lemma_wire_len_mono(self@, i + 1);
                }
                return Err(Error::NameTooLong);
            }
            total = total + self.0[i].len() + 1;
            if total > 255 {
                proof {
                    lemma_wire_len_mono(self@, i + 1);
                }
                return Err(Error::NameTooLong);
            }
            i = i + 1;
        }
        assert(self@.take(i as int) =~= self@);
        Ok(())
    }

    /// Whether this name equals `other`, ignoring ASCII case.
    pub fn eq_ignore_case(&self, other: &Name) -> (r: bool)
        ensures
            r == names_equal(self@, other@),
    {
        if self.0.len() != other.0.len() {
            return false;
        }
        let mut i: usize = 0;
        while i < self.0.len()
            invariant
                self@.len() == self.0@.len(),
                other@.len() == other.0@.len(),
                self@.len() == other@.len(),
                0 <= i <= self@.len(),
                forall|j: int| 0 <= j < i ==> #[trigger] label_eq_ci(self@[j], other@[j]),
            decreases self@.len() - i,
        {
            proof {
                assert(self@[i as int] == self.0@[i as int]@);
                assert(other@[i as int] == other.0@[i as int]@);
            }
            if !label_eq_ignore_case(self.0[i].as_slice(), other.0[i].as_slice()) {
                return false;
            }
            i = i + 1;
        }
        true
    }

    /// Whether this name's rightmost labels equal `suffix`, ignoring ASCII
    /// case. A name is always its own suffix.
    pub fn ends_with(&self, suffix: &Name) -> (r: bool)
        ensures
            r == name_ends_with(self@, suffix@),
    {
        if suffix.0.len() > self.0.len() {
            return false;
        }
        let n = self.0.len();
        let offset = n - suffix.0.len();
        let mut i: usize = 0;
        while i < suffix.0.len()
            invariant
                n == self.0@.len(),
                offset + suffix.0@.len() == n,
                self@.len() == self.0@.len(),
                suffix@.len() == suffix.0@.len(),
                suffix@.len() <= self@.len(),
                offset == self@.len() - suffix@.len(),
                0 <= i <= suffix@.len(),
                forall|j: int|
                    0 <= j < i ==> #[trigger] label_eq_ci(
                        self@[self@.len() - suffix@.len() + j],
                        suffix@[j],
                    ),
            decreases suffix@.len() - i,
        {
            proof {
                assert(self@[offset + i] == self.0@[offset + i]@);
                assert(suffix@[i as int] == suffix.0@[i as int]@);
            }
            if !label_eq_ignore_case(self.0[offset + i].as_slice(), suffix.0[i].as_slice()) {
                return false;
            }
            i = i + 1;
        }
        true
    }
}

impl PartialEq for Name {
    fn eq(&self, other: &Self) -> (r: bool) {
        self.eq_ignore_case(other)
    }
}

impl vstd::std_specs::cmp::PartialEqSpecImpl for Name {
    open spec fn obeys_eq_spec() -> bool {
        true
    }

    open spec fn eq_spec(&self, other: &Name) -> bool {
        names_equal(self@, other@)
    }
}

impl Eq for Name {

}

/// Splits `buf[start..end]` at every `.`.
fn split_bytes(buf: &[u8], start: usize, end: usize) -> (r: Vec<Vec<u8>>)
    requires
        start <= end <= buf@.len(),
    ensures
        labels_view(r@) == split_dots(buf@.subrange(start as int, end as int)),
{
    let mut parts: Vec<Vec<u8>> = Vec::new();
    let mut cur: Vec<u8> = Vec::new();
    let mut i = start;
    proof {
        assert(buf@.subrange(start as int, start as int) =~= Seq::<u8>::empty());
        assert(labels_view(parts@).push(cur@) =~= seq![Seq::<u8>::empty()]);
    }
    while i < end
        invariant
            start <= i <= end <= buf@.len(),
            labels_view(parts@).push(cur@) == split_dots(buf@.subrange(start as int, i as int)),
        decreases end - i,
    {
        let ghost s = buf@.subrange(start as int, i + 1);
        proof {
            assert(s.drop_last() =~= buf@.subrange(start as int, i as int));
            assert(s.last() == buf@[i as int]);
            lemma_split_dots_nonempty(s.drop_last());
        }
        if buf[i] == 46 {
            let done = cur;
            parts.push(done);
            cur = Vec::new();
            assert(labels_view(parts@).push(cur@) =~= split_dots(s));
        } else {
            let ghost old_parts = parts@;
            let ghost old_cur = cur@;
            cur.push(buf[i]);
            assert(labels_view(parts@).push(cur@) =~= split_dots(s));
        }
        i = i + 1;
    }
    parts.push(cur);
    assert(labels_view(parts@) =~= split_dots(buf@.subrange(start as int, end as int)));
    parts
}

/// Returns the error a label part causes, if any.
fn check_part(p: &[u8]) -> (r: Option<Error>)
    ensures
        r == part_error(p@),
{
    if p.len() == 0 {
        return Some(Error::InvalidName);
    }
    let mut j: usize = 0;
    while j < p.len()
        invariant
            0 <= j <= p@.len(),
            forall|k: int| 0 <= k < j ==> p@[k] < 128,
        decreases p@.len() - j,
    {
        if p[j] >= 128 {
            return Some(Error::InvalidName);
        }
        j = j + 1;
    }
    if p.len() > 63 {
        return Some(Error::LabelTooLong { offset: 0 });
    }
    None
}

/// Parses a name from the presentation-form bytes `bytes[start..]`.
pub fn name_from_bytes(bytes: &[u8], start: usize) -> (r: Result<Name, Error>)
    requires
        start <= bytes@.len(),
    ensures
        match parse_name_bytes(bytes@.subrange(start as int, bytes@.len() as int)) {
            Ok(ls) => r matches Ok(n) && n@ == ls,
            Err(e) => r == Err::<Name, Error>(e),
        },
{
    let ghost s = bytes@.subrange(start as int, bytes@.len() as int);
    let len = bytes.len();
    if len == start || (len - start == 1 && bytes[start] == 46) {
        proof {
            if len - start == 1 {
                assert(s =~= seq![46u8]);
            }
        }
        return Ok(Name::root());
    }
    proof {
        assert(!(s =~= seq![46u8]));
    }
    let end = if bytes[len - 1] == 46 {
        len - 1
    } else {
        len
    };
    proof {
        if bytes@[len - 1] == 46 {
            assert(s.drop_last() =~= bytes@.subrange(start as int, end as int));
        } else {
            assert(s =~= bytes@.subrange(start as int, end as int));
        }
    }
    let parts = split_bytes(bytes, start, end);
    let ghost pv = labels_view(parts@);
    let mut i: usize = 0;
    while i < parts.len()
        invariant
            0 <= i <= parts@.len(),
            pv == labels_view(parts@),
            first_part_error(pv, 0) == first_part_error(pv, i as int),
            s == bytes@.subrange(start as int, bytes@.len() as int),
            s.len() > 0,
            !(s =~= seq![46u8]),
            pv == split_dots(if s.last() == 46 { s.drop_last() } else { s }),
        decreases parts@.len() - i,
    {
        proof {
            assert(pv[i as int] == parts@[i as int]@);
        }
        let e = check_part(parts[i].as_slice());
        if let Some(err) = e {
            proof {
                assert(first_part_error(pv, i as int) == Some(err));
                assert(!(s.len() == 0));
                assert(split_dots(if s.last() == 46 { s.drop_last() } else { s }) == pv);
            }
            return Err(err);
        }
        i = i + 1;
    }
    let name = Name(parts);
    match name.check_total_length() {
        Ok(()) => Ok(name),
        Err(e) => Err(e),
    }
}

} // verus!
