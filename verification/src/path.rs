//! File names as byte strings, read component by component.
//!
//! A path is a string of bytes. What it names is its list of components: the
//! parts between the slashes, with repeated slashes, trailing slashes and every
//! `.` but a leading one left out. `..` is kept: without asking a disk nobody
//! knows where it leads.

use vstd::prelude::*;
use vstd::utf8::{decode_utf8, encode_utf8, valid_utf8};

verus! {

/// `/`.
pub const SLASH: u8 = 0x2f;

/// `.`.
pub const DOT: u8 = 0x2e;

/// `:`, which separates the directories of a search path.
pub const COLON: u8 = 0x3a;

/// Where the part of `p` that holds position `i` ends: at the next slash, or at
/// the end.
pub open spec fn part_end(p: Seq<u8>, i: int) -> int
    decreases p.len() - i,
{
    if i < 0 || i >= p.len() || p[i] == SLASH {
        i
    } else {
        part_end(p, i + 1)
    }
}

/// The byte ranges of the components of `p` from position `i` on.
pub open spec fn spans_from(p: Seq<u8>, i: int) -> Seq<(int, int)>
    decreases p.len() - i,
    when 0 <= i
    via spans_from_decreases
{
    if i >= p.len() {
        Seq::empty()
    } else if p[i] == SLASH {
        if i == 0 {
            seq![(0int, 1int)] + spans_from(p, 1)
        } else {
            spans_from(p, i + 1)
        }
    } else {
        let end = part_end(p, i);
        let rest = spans_from(p, end);
        if i > 0 && p.subrange(i, end) == seq![DOT] {
            rest
        } else {
            seq![(i, end)] + rest
        }
    }
}

#[via_fn]
proof fn spans_from_decreases(p: Seq<u8>, i: int) {
    if i < p.len() && p[i] != SLASH {
        lemma_part_end(p, i);
        lemma_part_end(p, i + 1);
    }
}

proof fn lemma_part_end(p: Seq<u8>, i: int)
    requires
        0 <= i <= p.len(),
    ensures
        i <= part_end(p, i) <= p.len(),
        forall|j: int| i <= j < part_end(p, i) ==> p[j] != SLASH,
        part_end(p, i) < p.len() ==> p[part_end(p, i)] == SLASH,
    decreases p.len() - i,
{
    if i < p.len() && p[i] != SLASH {
        lemma_part_end(p, i + 1);
    }
}

/// The byte ranges of the components of `p`, in order. The root directory is the
/// component `/` at the front of an absolute path.
pub open spec fn spans(p: Seq<u8>) -> Seq<(int, int)> {
    spans_from(p, 0)
}

/// The components of `p`, in order.
pub open spec fn components(p: Seq<u8>) -> Seq<Seq<u8>> {
    spans(p).map_values(|s: (int, int)| p.subrange(s.0, s.1))
}

/// Whether `p` starts at the root directory.
pub open spec fn is_absolute(p: Seq<u8>) -> bool {
    p.len() > 0 && p[0] == SLASH
}

/// Whether `a` and `b` have the same components.
pub open spec fn same_path(a: Seq<u8>, b: Seq<u8>) -> bool {
    components(a) == components(b)
}

/// Whether `p` is `base` or lies below it, component by component.
pub open spec fn starts_with(p: Seq<u8>, base: Seq<u8>) -> bool {
    components(base).is_prefix_of(components(p))
}

/// `tail` as seen from `base`: `tail` itself where it is absolute, and otherwise
/// `base`, a slash where one is wanted, and `tail`.
pub open spec fn joined_path(base: Seq<u8>, tail: Seq<u8>) -> Seq<u8> {
    if is_absolute(tail) {
        tail
    } else if base.len() == 0 || base.last() == SLASH {
        base + tail
    } else {
        base.push(SLASH) + tail
    }
}

/// What is left of `p` without its last component; nothing is left of a root
/// directory or of an empty path.
pub open spec fn parent_of(p: Seq<u8>) -> Option<Seq<u8>> {
    let s = spans(p);
    if s.len() == 0 || components(p).last() == seq![SLASH] {
        None
    } else if s.len() == 1 {
        Some(Seq::empty())
    } else {
        Some(p.subrange(0, s[s.len() - 2].1))
    }
}

/// The last component of `p`, where it is an ordinary name.
pub open spec fn file_name_of(p: Seq<u8>) -> Option<Seq<u8>> {
    let c = components(p);
    if c.len() == 0 || c.last() == seq![SLASH] || c.last() == seq![DOT] || c.last() == seq![
        DOT,
        DOT,
    ] {
        None
    } else {
        Some(c.last())
    }
}

/// What is left of `p` below `base`, when it lies below `base`.
pub open spec fn below(p: Seq<u8>, base: Seq<u8>) -> Option<Seq<u8>> {
    let s = spans(p);
    let n = components(base).len();
    if !starts_with(p, base) {
        None
    } else if n == s.len() {
        Some(Seq::empty())
    } else {
        Some(p.subrange(s[n as int].0, s.last().1))
    }
}

/// Whether some component of `p` is `..`.
pub open spec fn climbs(p: Seq<u8>) -> bool {
    components(p).contains(seq![DOT, DOT])
}

/// Every component of a path is a proper range of its bytes, and the ranges
/// follow one another.
pub proof fn lemma_spans(p: Seq<u8>)
    ensures
        forall|k: int|
            0 <= k < spans(p).len() ==> 0 <= (#[trigger] spans(p)[k]).0 < spans(p)[k].1 <= p.len(),
        forall|k: int, l: int|
            0 <= k < l < spans(p).len() ==> (#[trigger] spans(p)[k]).1 <= (#[trigger] spans(
                p,
            )[l]).0,
        components(p).len() == spans(p).len(),
{
    lemma_spans_from(p, 0);
}

proof fn lemma_spans_from(p: Seq<u8>, i: int)
    requires
        0 <= i,
    ensures
        forall|k: int|
            0 <= k < spans_from(p, i).len() ==> i <= (#[trigger] spans_from(p, i)[k]).0
                < spans_from(p, i)[k].1 <= p.len(),
        forall|k: int, l: int|
            0 <= k < l < spans_from(p, i).len() ==> (#[trigger] spans_from(p, i)[k]).1 <= (
            #[trigger] spans_from(p, i)[l]).0,
    decreases p.len() - i,
{
    if i < p.len() {
        let next = if p[i] == SLASH {
            i + 1
        } else {
            part_end(p, i)
        };
        lemma_part_end(p, i);
        lemma_part_end(p, i + 1);
        lemma_spans_from(p, next);
        let all = spans_from(p, i);
        let rest = spans_from(p, next);
        let taken = all.len() - rest.len();
        assert(taken == 0 && all == rest || taken == 1 && all[0] == (i, next) && forall|k: int|
            1 <= k < all.len() ==> #[trigger] all[k] == rest[k - 1]);
        assert forall|k: int, l: int| 0 <= k < l < all.len() implies (#[trigger] all[k]).1 <= (
        #[trigger] all[l]).0 by {
            if taken == 1 && k > 0 {
                assert(rest[k - 1].1 <= rest[l - 1].0);
            }
        }
    }
}

/// The ranges in `v` as mathematical integers.
pub open spec fn span_view(v: Seq<(usize, usize)>) -> Seq<(int, int)> {
    v.map_values(|s: (usize, usize)| (s.0 as int, s.1 as int))
}

/// What `bytes` read as text, with each stretch that is not UTF-8 replaced.
pub uninterp spec fn lossy(bytes: Seq<u8>) -> Seq<char>;

/// `String::from_utf8_lossy`: text from `bytes`, where what is not UTF-8 becomes
/// replacement characters and valid UTF-8 is kept as it is.
#[verifier::external_body]
pub(crate) fn lossy_text(bytes: &[u8]) -> (text: String)
    ensures
        text@ == lossy(bytes@),
        valid_utf8(bytes@) ==> text@ == decode_utf8(bytes@),
{
    String::from_utf8_lossy(bytes).into_owned()
}

/// `std::str::from_utf8`: the text that `bytes` encode, exactly when they are
/// valid UTF-8.
#[verifier::external_body]
pub(crate) fn strict_text(bytes: &[u8]) -> (text: Option<String>)
    ensures
        text is Some <==> valid_utf8(bytes@),
        text is Some ==> text->0@ == decode_utf8(bytes@),
{
    std::str::from_utf8(bytes).ok().map(String::from)
}

/// Whether two byte ranges hold the same bytes.
fn equal_ranges(a: &[u8], from_a: usize, to_a: usize, b: &[u8], from_b: usize, to_b: usize) -> (r:
    bool)
    requires
        from_a <= to_a <= a@.len(),
        from_b <= to_b <= b@.len(),
    ensures
        r == (a@.subrange(from_a as int, to_a as int) == b@.subrange(from_b as int, to_b as int)),
{
    let ghost x = a@.subrange(from_a as int, to_a as int);
    let ghost y = b@.subrange(from_b as int, to_b as int);
    if to_a - from_a != to_b - from_b {
        assert(x.len() != y.len());
        return false;
    }
    let count: usize = to_a - from_a;
    let mut k: usize = 0;
    while k < count
        invariant
            k <= count,
            count == to_a - from_a == to_b - from_b,
            from_a <= to_a <= a@.len(),
            from_b <= to_b <= b@.len(),
            x == a@.subrange(from_a as int, to_a as int),
            y == b@.subrange(from_b as int, to_b as int),
            forall|j: int| 0 <= j < k ==> x[j] == y[j],
        decreases count - k,
    {
        if a[from_a + k] != b[from_b + k] {
            assert(x[k as int] != y[k as int]);
            return false;
        }
        k += 1;
    }
    assert(x =~= y);
    true
}

/// The byte ranges of the components of `p`.
fn component_spans(p: &[u8]) -> (out: Vec<(usize, usize)>)
    ensures
        span_view(out@) == spans(p@),
{
    let mut out: Vec<(usize, usize)> = Vec::new();
    let mut i: usize = 0;
    assert(span_view(out@) + spans_from(p@, 0) =~= spans(p@));
    while i < p.len()
        invariant
            i <= p@.len(),
            span_view(out@) + spans_from(p@, i as int) == spans(p@),
        decreases p@.len() - i,
    {
        let ghost before = span_view(out@);
        if p[i] == SLASH {
            if i == 0 {
                out.push((0, 1));
                assert(span_view(out@) =~= before.push((0int, 1int)));
                assert(span_view(out@) + spans_from(p@, 1) =~= before + spans_from(p@, 0));
            }
            i += 1;
        } else {
            let mut end: usize = i + 1;
            while end < p.len() && p[end] != SLASH
                invariant
                    i < end <= p@.len(),
                    part_end(p@, i as int) == part_end(p@, end as int),
                decreases p@.len() - end,
            {
                end += 1;
            }
            proof {
                lemma_part_end(p@, i as int);
            }
            let plain_dot = end == i + 1 && p[i] == DOT;
            assert(plain_dot <==> p@.subrange(i as int, end as int) == seq![DOT]) by {
                if plain_dot {
                    assert(p@.subrange(i as int, end as int) =~= seq![DOT]);
                } else if p@.subrange(i as int, end as int) == seq![DOT] {
                    assert(p@.subrange(i as int, end as int).len() == 1);
                    assert(p@.subrange(i as int, end as int)[0] == DOT);
                }
            }
            if i == 0 || !plain_dot {
                out.push((i, end));
                assert(span_view(out@) =~= before.push((i as int, end as int)));
                assert(span_view(out@) + spans_from(p@, end as int) =~= before + spans_from(
                    p@,
                    i as int,
                ));
            }
            i = end;
        }
    }
    assert(span_view(out@) + spans_from(p@, i as int) =~= span_view(out@));
    out
}

/// A file name: a string of bytes.
#[derive(Debug, PartialEq, Eq)]
pub struct FilePath {
    pub bytes: Vec<u8>,
}

impl View for FilePath {
    type V = Seq<u8>;

    open spec fn view(&self) -> Seq<u8> {
        self.bytes@
    }
}

/// The views of a list of paths.
pub open spec fn paths(list: Seq<FilePath>) -> Seq<Seq<u8>> {
    list.map_values(|p: FilePath| p@)
}

impl Clone for FilePath {
    fn clone(&self) -> (r: Self)
        ensures
            r@ == self@,
    {
        FilePath::from_bytes(self.bytes.as_slice())
    }
}

impl FilePath {
    /// The path made of `bytes`.
    pub fn from_bytes(bytes: &[u8]) -> (r: FilePath)
        ensures
            r@ == bytes@,
    {
        let mut copy: Vec<u8> = Vec::new();
        copy.extend_from_slice(bytes);
        assert(copy@ =~= bytes@);
        FilePath { bytes: copy }
    }

    /// The path whose bytes are the UTF-8 encoding of `text`.
    pub fn from_text(text: &str) -> (r: FilePath)
        ensures
            r@ == encode_utf8(text@),
    {
        FilePath::from_bytes(text.as_bytes())
    }

    /// Whether the path starts at the root directory.
    pub fn is_absolute(&self) -> (r: bool)
        ensures
            r == is_absolute(self@),
    {
        self.bytes.len() > 0 && self.bytes[0] == SLASH
    }

    /// Whether there are no bytes in it.
    pub fn is_empty(&self) -> (r: bool)
        ensures
            r == (self@.len() == 0),
    {
        self.bytes.len() == 0
    }

    /// `tail` as seen from this path.
    pub fn join(&self, tail: &FilePath) -> (r: FilePath)
        ensures
            r@ == joined_path(self@, tail@),
    {
        if tail.is_absolute() {
            return tail.clone();
        }
        let mut out = self.clone();
        if out.bytes.len() > 0 && out.bytes[out.bytes.len() - 1] != SLASH {
            out.bytes.push(SLASH);
        }
        out.bytes.extend_from_slice(tail.bytes.as_slice());
        assert(out@ =~= joined_path(self@, tail@));
        out
    }

    /// `tail`, which is text, as seen from this path.
    pub fn join_text(&self, tail: &str) -> (r: FilePath)
        ensures
            r@ == joined_path(self@, encode_utf8(tail@)),
    {
        self.join(&FilePath::from_text(tail))
    }

    /// Whether the two paths have the same components.
    pub fn same(&self, other: &FilePath) -> (r: bool)
        ensures
            r == same_path(self@, other@),
    {
        let a = component_spans(self.bytes.as_slice());
        let b = component_spans(other.bytes.as_slice());
        let r = a.len() == b.len() && prefix_agrees(self, &a, other, &b);
        proof {
            lemma_spans(self@);
            lemma_spans(other@);
            if r {
                assert(components(self@) =~= components(other@));
            } else if components(self@) == components(other@) {
                assert(components(other@).is_prefix_of(components(self@)));
            }
        }
        r
    }

    /// Whether this path is `base` or lies below it.
    pub fn starts_with(&self, base: &FilePath) -> (r: bool)
        ensures
            r == starts_with(self@, base@),
    {
        let a = component_spans(self.bytes.as_slice());
        let b = component_spans(base.bytes.as_slice());
        prefix_agrees(self, &a, base, &b)
    }

    /// What is left of this path below `base`.
    pub fn strip_prefix(&self, base: &FilePath) -> (r: Option<FilePath>)
        ensures
            r is Some <==> below(self@, base@) is Some,
            r is Some ==> r->0@ == below(self@, base@)->0,
    {
        let a = component_spans(self.bytes.as_slice());
        let b = component_spans(base.bytes.as_slice());
        if !prefix_agrees(self, &a, base, &b) {
            return None;
        }
        proof {
            lemma_spans(self@);
            lemma_spans(base@);
            assert(span_view(a@)[a@.len() - 1] == spans(self@).last() || a@.len() == 0);
        }
        if a.len() == b.len() {
            let empty: Vec<u8> = Vec::new();
            assert(empty@ =~= Seq::<u8>::empty());
            return Some(FilePath { bytes: empty });
        }
        assert(spans(self@)[b@.len() as int] == span_view(a@)[b@.len() as int]);
        let from: usize = a[b.len()].0;
        let to: usize = a[a.len() - 1].1;
        Some(FilePath::from_bytes(&self.bytes.as_slice()[from..to]))
    }

    /// What is left of this path without its last component.
    pub fn parent(&self) -> (r: Option<FilePath>)
        ensures
            r is Some <==> parent_of(self@) is Some,
            r is Some ==> r->0@ == parent_of(self@)->0,
    {
        let a = component_spans(self.bytes.as_slice());
        proof {
            lemma_spans(self@);
        }
        if a.len() == 0 {
            return None;
        }
        let last: usize = a.len() - 1;
        assert(span_view(a@)[last as int] == spans(self@)[last as int]);
        assert(components(self@).last() == self@.subrange(a@[last as int].0 as int, a@[last as int].1 as int));
        if equal_ranges(self.bytes.as_slice(), a[last].0, a[last].1, &[SLASH], 0, 1) {
            assert([SLASH]@.subrange(0, 1) =~= seq![SLASH]);
            return None;
        }
        assert([SLASH]@.subrange(0, 1) =~= seq![SLASH]);
        if a.len() == 1 {
            let empty: Vec<u8> = Vec::new();
            assert(empty@ =~= Seq::<u8>::empty());
            return Some(FilePath { bytes: empty });
        }
        assert(span_view(a@)[last - 1] == spans(self@)[last - 1]);
        let to: usize = a[last - 1].1;
        Some(FilePath::from_bytes(&self.bytes.as_slice()[0..to]))
    }

    /// The last component, where it is an ordinary name.
    pub fn file_name(&self) -> (r: Option<FilePath>)
        ensures
            r is Some <==> file_name_of(self@) is Some,
            r is Some ==> r->0@ == file_name_of(self@)->0,
    {
        let a = component_spans(self.bytes.as_slice());
        proof {
            lemma_spans(self@);
            assert([SLASH]@.subrange(0, 1) =~= seq![SLASH]);
            assert([DOT]@.subrange(0, 1) =~= seq![DOT]);
            assert([DOT, DOT]@.subrange(0, 2) =~= seq![DOT, DOT]);
        }
        if a.len() == 0 {
            return None;
        }
        let last: usize = a.len() - 1;
        assert(span_view(a@)[last as int] == spans(self@)[last as int]);
        let from: usize = a[last].0;
        let to: usize = a[last].1;
        let all = self.bytes.as_slice();
        if equal_ranges(all, from, to, &[SLASH], 0, 1) || equal_ranges(all, from, to, &[DOT], 0, 1)
            || equal_ranges(all, from, to, &[DOT, DOT], 0, 2) {
            return None;
        }
        Some(FilePath::from_bytes(&all[from..to]))
    }

    /// Whether some component is `..`.
    pub fn climbs(&self) -> (r: bool)
        ensures
            r == climbs(self@),
    {
        let a = component_spans(self.bytes.as_slice());
        proof {
            lemma_spans(self@);
            assert([DOT, DOT]@.subrange(0, 2) =~= seq![DOT, DOT]);
        }
        let mut k: usize = 0;
        while k < a.len()
            invariant
                k <= a@.len(),
                span_view(a@) == spans(self@),
                components(self@).len() == a@.len(),
                [DOT, DOT]@.subrange(0, 2) == seq![DOT, DOT],
                forall|j: int|
                    0 <= j < k ==> (#[trigger] components(self@)[j]) != seq![DOT, DOT],
            decreases a@.len() - k,
        {
            proof {
                lemma_spans(self@);
                assert(span_view(a@)[k as int] == spans(self@)[k as int]);
            }
            if equal_ranges(self.bytes.as_slice(), a[k].0, a[k].1, &[DOT, DOT], 0, 2) {
                assert(components(self@)[k as int] == seq![DOT, DOT]);
                return true;
            }
            k += 1;
        }
        false
    }

    /// The path as text, where it is text.
    pub fn to_text(&self) -> (r: Option<String>)
        ensures
            r is Some <==> valid_utf8(self@),
            r is Some ==> r->0@ == decode_utf8(self@),
    {
        strict_text(self.bytes.as_slice())
    }

    /// The path for a message, with what is not text replaced.
    pub fn display(&self) -> (r: String)
        ensures
            r@ == lossy(self@),
            valid_utf8(self@) ==> r@ == decode_utf8(self@),
    {
        lossy_text(self.bytes.as_slice())
    }
}

/// Whether the components `b` of `base` are the first of the components `a` of
/// `p`.
fn prefix_agrees(
    p: &FilePath,
    a: &Vec<(usize, usize)>,
    base: &FilePath,
    b: &Vec<(usize, usize)>,
) -> (r: bool)
    requires
        span_view(a@) == spans(p@),
        span_view(b@) == spans(base@),
    ensures
        r == starts_with(p@, base@),
{
    proof {
        lemma_spans(p@);
        lemma_spans(base@);
    }
    if b.len() > a.len() {
        return false;
    }
    let mut k: usize = 0;
    while k < b.len()
        invariant
            k <= b@.len() <= a@.len(),
            span_view(a@) == spans(p@),
            span_view(b@) == spans(base@),
            components(p@).len() == a@.len(),
            components(base@).len() == b@.len(),
            forall|j: int| 0 <= j < k ==> components(base@)[j] == components(p@)[j],
        decreases b@.len() - k,
    {
        proof {
            lemma_spans(p@);
            lemma_spans(base@);
            assert(span_view(a@)[k as int] == spans(p@)[k as int]);
            assert(span_view(b@)[k as int] == spans(base@)[k as int]);
        }
        if !equal_ranges(
            p.bytes.as_slice(),
            a[k].0,
            a[k].1,
            base.bytes.as_slice(),
            b[k].0,
            b[k].1,
        ) {
            assert(components(base@)[k as int] != components(p@)[k as int]);
            assert(components(p@).subrange(0, components(base@).len() as int)[k as int]
                == components(p@)[k as int]);
            return false;
        }
        k += 1;
    }
    assert(components(base@) =~= components(p@).subrange(0, components(base@).len() as int));
    true
}

/// Where the entry of a search path that holds position `i` ends: at the next
/// colon, or at the end.
pub open spec fn entry_end(p: Seq<u8>, i: int) -> int
    decreases p.len() - i,
{
    if i < 0 || i >= p.len() || p[i] == COLON {
        i
    } else {
        entry_end(p, i + 1)
    }
}

/// The entries of a search path from position `i` on, empty ones included.
pub open spec fn entries_from(p: Seq<u8>, i: int) -> Seq<Seq<u8>>
    decreases p.len() - i,
    when 0 <= i <= p.len()
    via entries_from_decreases
{
    let end = entry_end(p, i);
    if end < p.len() {
        seq![p.subrange(i, end)] + entries_from(p, end + 1)
    } else {
        seq![p.subrange(i, end)]
    }
}

#[via_fn]
proof fn entries_from_decreases(p: Seq<u8>, i: int) {
    lemma_entry_end(p, i);
}

proof fn lemma_entry_end(p: Seq<u8>, i: int)
    requires
        0 <= i <= p.len(),
    ensures
        i <= entry_end(p, i) <= p.len(),
    decreases p.len() - i,
{
    if i < p.len() && p[i] != COLON {
        lemma_entry_end(p, i + 1);
    }
}

/// The absolute entries of a list.
pub open spec fn absolute_only(list: Seq<Seq<u8>>) -> Seq<Seq<u8>>
    decreases list.len(),
{
    if list.len() == 0 {
        Seq::empty()
    } else {
        let rest = absolute_only(list.drop_last());
        if is_absolute(list.last()) {
            rest.push(list.last())
        } else {
            rest
        }
    }
}

impl FilePath {
    /// The entries of a search path: what stands between the colons.
    pub fn split_paths(&self) -> (r: Vec<FilePath>)
        ensures
            paths(r@) == entries_from(self@, 0),
    {
        let mut r: Vec<FilePath> = Vec::new();
        let mut i: usize = 0;
        assert(paths(r@) + entries_from(self@, 0) =~= entries_from(self@, 0));
        loop
            invariant_except_break
                i <= self@.len(),
                paths(r@) + entries_from(self@, i as int) == entries_from(self@, 0),
            ensures
                paths(r@) == entries_from(self@, 0),
            decreases self@.len() - i,
        {
            let ghost before = paths(r@);
            let mut end: usize = i;
            while end < self.bytes.len() && self.bytes[end] != COLON
                invariant
                    i <= end <= self@.len(),
                    entry_end(self@, i as int) == entry_end(self@, end as int),
                decreases self@.len() - end,
            {
                end += 1;
            }
            r.push(FilePath::from_bytes(&self.bytes.as_slice()[i..end]));
            assert(paths(r@) =~= before.push(self@.subrange(i as int, end as int)));
            if end == self.bytes.len() {
                assert(paths(r@) =~= before + entries_from(self@, i as int));
                break;
            }
            assert(paths(r@) + entries_from(self@, end + 1) =~= before + entries_from(
                self@,
                i as int,
            ));
            i = end + 1;
        }
        r
    }

    /// The entries of a search path that do not depend on the current directory.
    pub fn search_directories(&self) -> (r: Vec<FilePath>)
        ensures
            paths(r@) == absolute_only(entries_from(self@, 0)),
    {
        let entries = self.split_paths();
        let ghost all = paths(entries@);
        let mut r: Vec<FilePath> = Vec::new();
        let mut i: usize = 0;
        assert(paths(r@) =~= absolute_only(all.take(0)));
        while i < entries.len()
            invariant
                i <= entries@.len(),
                all == paths(entries@),
                paths(r@) == absolute_only(all.take(i as int)),
            decreases entries@.len() - i,
        {
            let ghost before = paths(r@);
            assert(all.take(i + 1).drop_last() =~= all.take(i as int));
            assert(all[i as int] == entries@[i as int]@);
            if entries[i].is_absolute() {
                r.push(entries[i].clone());
                assert(paths(r@) =~= before.push(all[i as int]));
            }
            i += 1;
        }
        assert(all.take(all.len() as int) =~= all);
        r
    }
}

/// Where a component stands among components of other kinds: the root directory,
/// then `.`, then `..`, then names.
pub open spec fn component_rank(c: Seq<u8>) -> int {
    if c == seq![SLASH] {
        0
    } else if c == seq![DOT] {
        1
    } else if c == seq![DOT, DOT] {
        2
    } else {
        3
    }
}

/// `a` comes before `b`, byte by byte.
pub open spec fn bytes_before(a: Seq<u8>, b: Seq<u8>) -> bool
    decreases a.len(),
{
    if b.len() == 0 {
        false
    } else if a.len() == 0 {
        true
    } else if a[0] == b[0] {
        bytes_before(a.skip(1), b.skip(1))
    } else {
        a[0] < b[0]
    }
}

/// Component `a` comes before component `b`.
pub open spec fn component_before(a: Seq<u8>, b: Seq<u8>) -> bool {
    if component_rank(a) == component_rank(b) {
        bytes_before(a, b)
    } else {
        component_rank(a) < component_rank(b)
    }
}

/// The components `a` come before the components `b`: the first difference
/// decides, and a directory comes before what is in it.
pub open spec fn components_before(a: Seq<Seq<u8>>, b: Seq<Seq<u8>>) -> bool
    decreases a.len(),
{
    if b.len() == 0 {
        false
    } else if a.len() == 0 {
        true
    } else if a[0] == b[0] {
        components_before(a.skip(1), b.skip(1))
    } else {
        component_before(a[0], b[0])
    }
}

/// Path `a` comes before path `b`.
pub open spec fn path_before(a: Seq<u8>, b: Seq<u8>) -> bool {
    components_before(components(a), components(b))
}

proof fn lemma_bytes_order(a: Seq<u8>, b: Seq<u8>, c: Seq<u8>)
    ensures
        !bytes_before(a, a),
        a == b || bytes_before(a, b) || bytes_before(b, a),
        bytes_before(a, b) && bytes_before(b, c) ==> bytes_before(a, c),
    decreases a.len() + b.len() + c.len(),
{
    if a.len() > 0 && b.len() > 0 {
        if c.len() > 0 {
            lemma_bytes_order(a.skip(1), b.skip(1), c.skip(1));
        } else {
            lemma_bytes_order(a.skip(1), b.skip(1), c);
        }
        if a[0] == b[0] && a.skip(1) == b.skip(1) {
            assert(a =~= seq![a[0]] + a.skip(1));
            assert(b =~= seq![b[0]] + b.skip(1));
        }
    } else if a.len() > 0 {
        lemma_bytes_order(a.skip(1), b, c);
    } else if b.len() == 0 {
        assert(a =~= b);
    }
}

proof fn lemma_component_order(a: Seq<u8>, b: Seq<u8>, c: Seq<u8>)
    ensures
        !component_before(a, a),
        a == b || component_before(a, b) || component_before(b, a),
        component_before(a, b) && component_before(b, c) ==> component_before(a, c),
{
    lemma_bytes_order(a, b, c);
    lemma_bytes_order(b, a, c);
}

proof fn lemma_components_order(a: Seq<Seq<u8>>, b: Seq<Seq<u8>>, c: Seq<Seq<u8>>)
    ensures
        !components_before(a, a),
        a == b || components_before(a, b) || components_before(b, a),
        components_before(a, b) && components_before(b, c) ==> components_before(a, c),
    decreases a.len() + b.len() + c.len(),
{
    if a.len() > 0 && b.len() > 0 {
        if c.len() > 0 {
            lemma_components_order(a.skip(1), b.skip(1), c.skip(1));
            lemma_component_order(a[0], b[0], c[0]);
            lemma_component_order(b[0], c[0], a[0]);
            lemma_component_order(b[0], a[0], c[0]);
        } else {
            lemma_components_order(a.skip(1), b.skip(1), c);
            lemma_component_order(a[0], b[0], a[0]);
        }
        if a[0] == b[0] && a.skip(1) == b.skip(1) {
            assert(a =~= seq![a[0]] + a.skip(1));
            assert(b =~= seq![b[0]] + b.skip(1));
        }
    } else if a.len() > 0 {
        lemma_components_order(a.skip(1), b, c);
    } else if b.len() == 0 {
        assert(a =~= b);
    }
}

/// Two paths with different components stand in one order or the other, and the
/// order is transitive.
pub proof fn lemma_path_order(a: Seq<u8>, b: Seq<u8>, c: Seq<u8>)
    ensures
        !path_before(a, a),
        same_path(a, b) || path_before(a, b) || path_before(b, a),
        path_before(a, b) && path_before(b, c) ==> path_before(a, c),
{
    lemma_components_order(components(a), components(b), components(c));
}

proof fn lemma_prefix_before(a: Seq<Seq<u8>>, b: Seq<Seq<u8>>)
    requires
        a.is_prefix_of(b),
        a != b,
    ensures
        components_before(a, b),
    decreases a.len(),
{
    if b.len() == 0 {
        assert(a =~= b);
    } else if a.len() > 0 {
        assert(a[0] == b[0]);
        assert(a.skip(1) =~= b.skip(1).subrange(0, a.len() - 1));
        if a.skip(1) == b.skip(1) {
            assert(a =~= seq![a[0]] + a.skip(1));
            assert(b =~= seq![b[0]] + b.skip(1));
        }
        lemma_prefix_before(a.skip(1), b.skip(1));
    }
}

/// A directory comes before everything in it.
pub proof fn lemma_directory_before_contents(directory: Seq<u8>, p: Seq<u8>)
    requires
        starts_with(p, directory),
        !same_path(p, directory),
    ensures
        path_before(directory, p),
{
    lemma_prefix_before(components(directory), components(p));
}

/// Whether the bytes `a[from_a..to_a]` come before the bytes `b[from_b..to_b]`.
fn range_before(a: &[u8], from_a: usize, to_a: usize, b: &[u8], from_b: usize, to_b: usize) -> (r:
    bool)
    requires
        from_a <= to_a <= a@.len(),
        from_b <= to_b <= b@.len(),
    ensures
        r == bytes_before(
            a@.subrange(from_a as int, to_a as int),
            b@.subrange(from_b as int, to_b as int),
        ),
    decreases to_a - from_a,
{
    let ghost x = a@.subrange(from_a as int, to_a as int);
    let ghost y = b@.subrange(from_b as int, to_b as int);
    if from_b == to_b {
        return false;
    }
    if from_a == to_a {
        return true;
    }
    if a[from_a] == b[from_b] {
        assert(x.skip(1) =~= a@.subrange(from_a + 1, to_a as int));
        assert(y.skip(1) =~= b@.subrange(from_b + 1, to_b as int));
        return range_before(a, from_a + 1, to_a, b, from_b + 1, to_b);
    }
    a[from_a] < b[from_b]
}

/// The rank of the component `p[from..to]`.
fn range_rank(p: &[u8], from: usize, to: usize) -> (r: u8)
    requires
        from <= to <= p@.len(),
    ensures
        r == component_rank(p@.subrange(from as int, to as int)),
{
    proof {
        assert([SLASH]@.subrange(0, 1) =~= seq![SLASH]);
        assert([DOT]@.subrange(0, 1) =~= seq![DOT]);
        assert([DOT, DOT]@.subrange(0, 2) =~= seq![DOT, DOT]);
    }
    if equal_ranges(p, from, to, &[SLASH], 0, 1) {
        0
    } else if equal_ranges(p, from, to, &[DOT], 0, 1) {
        1
    } else if equal_ranges(p, from, to, &[DOT, DOT], 0, 2) {
        2
    } else {
        3
    }
}

impl FilePath {
    /// Whether this path comes before `other`.
    pub fn before(&self, other: &FilePath) -> (r: bool)
        ensures
            r == path_before(self@, other@),
    {
        let a = component_spans(self.bytes.as_slice());
        let b = component_spans(other.bytes.as_slice());
        proof {
            lemma_spans(self@);
            lemma_spans(other@);
            assert(components(self@).skip(0) =~= components(self@));
            assert(components(other@).skip(0) =~= components(other@));
        }
        let mut k: usize = 0;
        while k < a.len() && k < b.len()
            invariant
                k <= a@.len(),
                k <= b@.len(),
                span_view(a@) == spans(self@),
                span_view(b@) == spans(other@),
                components(self@).len() == a@.len(),
                components(other@).len() == b@.len(),
                path_before(self@, other@) == components_before(
                    components(self@).skip(k as int),
                    components(other@).skip(k as int),
                ),
            decreases a@.len() - k,
        {
            proof {
                lemma_spans(self@);
                lemma_spans(other@);
                assert(span_view(a@)[k as int] == spans(self@)[k as int]);
                assert(span_view(b@)[k as int] == spans(other@)[k as int]);
                assert(components(self@).skip(k as int).skip(1) =~= components(self@).skip(k + 1));
                assert(components(other@).skip(k as int).skip(1) =~= components(other@).skip(
                    k + 1,
                ));
            }
            let (from_a, to_a): (usize, usize) = a[k];
            let (from_b, to_b): (usize, usize) = b[k];
            let x = self.bytes.as_slice();
            let y = other.bytes.as_slice();
            if !equal_ranges(x, from_a, to_a, y, from_b, to_b) {
                let rank_a: u8 = range_rank(x, from_a, to_a);
                let rank_b: u8 = range_rank(y, from_b, to_b);
                if rank_a != rank_b {
                    return rank_a < rank_b;
                }
                return range_before(x, from_a, to_a, y, from_b, to_b);
            }
            k += 1;
        }
        k < b.len()
    }
}

/// Up to the slash behind `base`, a longer path has the parts of `base`.
proof fn lemma_part_end_extended(base: Seq<u8>, tail: Seq<u8>, i: int)
    requires
        0 <= i <= base.len(),
    ensures
        part_end(base.push(SLASH) + tail, i) == part_end(base, i),
    decreases base.len() - i,
{
    let p = base.push(SLASH) + tail;
    if i < base.len() {
        assert(p[i] == base[i]);
        if base[i] != SLASH {
            lemma_part_end_extended(base, tail, i + 1);
        }
    } else {
        assert(p[i] == SLASH);
    }
}

proof fn lemma_spans_extended(base: Seq<u8>, tail: Seq<u8>, i: int)
    requires
        0 <= i <= base.len(),
        base.len() > 0,
    ensures
        spans_from(base.push(SLASH) + tail, i) == spans_from(base, i) + spans_from(
            base.push(SLASH) + tail,
            base.len() as int,
        ),
    decreases base.len() - i,
{
    let p = base.push(SLASH) + tail;
    let n = base.len() as int;
    if i < n {
        assert(p[i] == base[i]);
        let next = if base[i] == SLASH {
            i + 1
        } else {
            part_end(base, i)
        };
        lemma_part_end(base, i);
        lemma_part_end(base, i + 1);
        lemma_part_end_extended(base, tail, i);
        lemma_spans_extended(base, tail, next);
        if base[i] != SLASH {
            assert(p.subrange(i, next) =~= base.subrange(i, next));
        }
        assert(spans_from(p, i) =~= spans_from(base, i) + spans_from(p, n));
    } else {
        assert(spans_from(base, i) =~= Seq::<(int, int)>::empty());
        assert(spans_from(p, i) =~= spans_from(base, i) + spans_from(p, n));
    }
}

/// What a relative path names, seen from a directory, lies in that directory.
pub proof fn lemma_join_stays_below(base: Seq<u8>, tail: Seq<u8>)
    requires
        base.len() > 0,
        base.last() != SLASH,
        !is_absolute(tail),
    ensures
        starts_with(joined_path(base, tail), base),
{
    let p = base.push(SLASH) + tail;
    lemma_spans_extended(base, tail, 0);
    lemma_spans(base);
    lemma_spans(p);
    let a = components(base);
    let b = components(p);
    assert(a =~= b.subrange(0, a.len() as int)) by {
        assert forall|k: int| 0 <= k < a.len() implies a[k] == b[k] by {
            let s = spans(base)[k];
            assert(spans(p)[k] == s);
            assert(p.subrange(s.0, s.1) =~= base.subrange(s.0, s.1));
        }
    }
}

proof fn lemma_later_spans_are_names(p: Seq<u8>, i: int, k: int)
    requires
        0 <= i,
        0 <= k < spans_from(p, i).len(),
    ensures
        spans_from(p, i)[k].0 > 0 ==> p[spans_from(p, i)[k].0] != SLASH,
        spans_from(p, i)[k].0 == 0 ==> k == 0,
    decreases p.len() - i,
{
    lemma_spans_from(p, i);
    if i < p.len() {
        let next = if p[i] == SLASH {
            i + 1
        } else {
            part_end(p, i)
        };
        lemma_part_end(p, i);
        lemma_part_end(p, i + 1);
        lemma_spans_from(p, next);
        let all = spans_from(p, i);
        let rest = spans_from(p, next);
        if all.len() == rest.len() {
            assert(all == rest);
            lemma_later_spans_are_names(p, next, k);
        } else {
            assert(all == seq![(i, next)] + rest);
            if k > 0 {
                assert(all[k] == rest[k - 1]);
                lemma_later_spans_are_names(p, next, k - 1);
            }
        }
    }
}

/// What is left of a path below a directory is relative.
pub proof fn lemma_below_is_relative(p: Seq<u8>, base: Seq<u8>)
    requires
        below(p, base) is Some,
        components(base).len() > 0,
    ensures
        !is_absolute(below(p, base)->0),
{
    lemma_spans(p);
    lemma_spans(base);
    let n = components(base).len() as int;
    if n < spans(p).len() {
        lemma_later_spans_are_names(p, 0, n);
        let s = spans(p)[n];
        let rest = p.subrange(s.0, spans(p).last().1);
        assert(spans(p)[n].1 <= spans(p).last().1) by {
            if n < spans(p).len() - 1 {
                assert(spans(p)[n].1 <= spans(p)[spans(p).len() - 1].0);
            }
        }
        assert(rest[0] == p[s.0]);
    }
}

/// The range `from..to` of `p` is what stands between two slashes, or between a slash and
/// an end, and is no `.` behind a slash; or it is the slash that an absolute path starts
/// with.
spec fn is_part(p: Seq<u8>, from: int, to: int) -> bool {
    ||| from == 0 && to == 1 && p.len() > 0 && p[0] == SLASH
    ||| {
        &&& 0 <= from < to <= p.len()
        &&& forall|j: int| from <= j < to ==> #[trigger] p[j] != SLASH
        &&& from == 0 || p[from - 1] == SLASH
        &&& to == p.len() || p[to] == SLASH
        &&& !(from > 0 && to == from + 1 && p[from] == DOT)
    }
}

proof fn lemma_spans_from_parts(p: Seq<u8>, i: int, from: int, to: int)
    requires
        0 <= i <= p.len(),
        i == 0 || p[i - 1] == SLASH || i == p.len() || p[i] == SLASH,
    ensures
        spans_from(p, i).contains((from, to)) <==> i <= from && is_part(p, from, to),
    decreases p.len() - i,
{
    lemma_spans_from(p, i);
    if i < p.len() {
        lemma_part_end(p, i);
        lemma_part_end(p, i + 1);
        let next = if p[i] == SLASH {
            i + 1
        } else {
            part_end(p, i)
        };
        lemma_spans_from_parts(p, next, from, to);
        let all = spans_from(p, i);
        let rest = spans_from(p, next);
        if p[i] != SLASH {
            assert((p.subrange(i, next) == seq![DOT]) == (next == i + 1 && p[i] == DOT)) by {
                if next == i + 1 && p[i] == DOT {
                    assert(p.subrange(i, next) =~= seq![DOT]);
                }
                if p.subrange(i, next) == seq![DOT] {
                    assert(p.subrange(i, next).len() == 1);
                    assert(p.subrange(i, next)[0] == p[i]);
                }
            }
        }
        assert(all.contains((from, to)) <==> rest.contains((from, to)) || all.len() > rest.len()
            && (from, to) == (i, next)) by {
            if all.len() > rest.len() {
                assert(all == seq![(i, next)] + rest);
                assert(all[0] == (i, next));
                if all.contains((from, to)) {
                    let k = choose|k: int| 0 <= k < all.len() && all[k] == (from, to);
                    if k > 0 {
                        assert(rest[k - 1] == (from, to));
                    }
                }
                if rest.contains((from, to)) {
                    let k = choose|k: int| 0 <= k < rest.len() && rest[k] == (from, to);
                    assert(all[k + 1] == (from, to));
                }
            } else {
                assert(all == rest);
            }
        }
        if from == i && is_part(p, from, to) && !(p[i] == SLASH) {
            // Both end at the first slash from here on.
            if to < next {
                assert(p[to] != SLASH);
            }
            if next < to {
                assert(p[next] != SLASH);
            }
        }
        if i < from < next && is_part(p, from, to) {
            assert(p[from - 1] != SLASH);
        }
    }
}

/// The components of a path are exactly its parts: what stands between slashes, without
/// anything that is empty and without a `.` that stands behind a slash, and the slash
/// that an absolute path starts with. They come in the order they stand in the path, and
/// each is named by its own bytes.
pub proof fn lemma_components_are_the_parts(p: Seq<u8>, from: int, to: int)
    ensures
        spans(p).contains((from, to)) <==> {
            ||| from == 0 && to == 1 && p.len() > 0 && p[0] == 0x2f
            ||| {
                &&& 0 <= from < to <= p.len()
                &&& forall|j: int| from <= j < to ==> #[trigger] p[j] != 0x2f
                &&& from == 0 || p[from - 1] == 0x2f
                &&& to == p.len() || p[to] == 0x2f
                &&& !(from > 0 && to == from + 1 && p[from] == 0x2e)
            }
        },
        forall|k: int, l: int|
            0 <= k < l < spans(p).len() ==> (#[trigger] spans(p)[k]).0 < (#[trigger] spans(p)[l]).0,
        components(p).len() == spans(p).len(),
        forall|k: int|
            0 <= k < spans(p).len() ==> #[trigger] components(p)[k] == p.subrange(
                spans(p)[k].0,
                spans(p)[k].1,
            ),
{
    lemma_spans(p);
    lemma_spans_from_parts(p, 0, from, to);
}

/// Two paths are the same when they have the same components one by one, and a path lies
/// in another when it has the other's components first.
pub proof fn lemma_paths_go_by_components(p: Seq<u8>, q: Seq<u8>)
    ensures
        same_path(p, q) <==> components(p).len() == components(q).len() && forall|k: int|
            0 <= k < components(p).len() ==> #[trigger] components(p)[k] == components(q)[k],
        starts_with(p, q) <==> components(q).len() <= components(p).len() && forall|k: int|
            0 <= k < components(q).len() ==> #[trigger] components(p)[k] == components(q)[k],
        is_absolute(p) <==> components(p).len() > 0 && components(p)[0] == seq![0x2fu8],
        climbs(p) <==> exists|k: int|
            0 <= k < components(p).len() && #[trigger] components(p)[k] == seq![0x2eu8, 0x2eu8],
{
    let (a, b) = (components(p), components(q));
    if a.len() == b.len() && forall|k: int| 0 <= k < a.len() ==> #[trigger] a[k] == b[k] {
        assert(a =~= b);
    }
    if b.len() <= a.len() && forall|k: int| 0 <= k < b.len() ==> #[trigger] a[k] == b[k] {
        assert(b =~= a.subrange(0, b.len() as int));
    }
    if starts_with(p, q) {
        assert forall|k: int| 0 <= k < b.len() implies #[trigger] a[k] == b[k] by {
            assert(a.subrange(0, b.len() as int)[k] == a[k]);
        }
    }
    lemma_components_are_the_parts(p, 0, 1);
    if is_absolute(p) {
        let k = choose|k: int| 0 <= k < spans(p).len() && spans(p)[k] == (0int, 1int);
        lemma_spans(p);
        assert(k == 0) by {
            if k > 0 {
                assert(spans(p)[0].1 <= spans(p)[k].0);
            }
        }
        assert(a[0] =~= seq![SLASH]);
    }
    if a.len() > 0 && a[0] == seq![SLASH] {
        lemma_spans(p);
        let (from, to) = spans(p)[0];
        assert(spans(p).contains((from, to)));
        lemma_components_are_the_parts(p, from, to);
        assert(p.subrange(from, to)[0] == p[from]);
        assert(p[from] == SLASH);
    }
}

/// Seen from a directory, an absolute path is itself. A relative one follows the
/// directory byte for byte, with one slash between them where none is there already.
pub proof fn lemma_join(base: Seq<u8>, tail: Seq<u8>)
    ensures
        tail.len() > 0 && tail[0] == 0x2f ==> joined_path(base, tail) == tail,
        !(tail.len() > 0 && tail[0] == 0x2f) ==> {
            let p = joined_path(base, tail);
            let between = p.len() - base.len() - tail.len();
            &&& p.take(base.len() as int) == base
            &&& p.skip(p.len() - tail.len()) == tail
            &&& between == 0 || between == 1
            &&& between == 1 <==> base.len() > 0 && base.last() != 0x2f
            &&& between == 1 ==> p[base.len() as int] == 0x2f
        },
{
    if !is_absolute(tail) {
        let p = joined_path(base, tail);
        assert(p.take(base.len() as int) =~= base);
        assert(p.skip(p.len() - tail.len()) =~= tail);
    }
}

/// The parts of a path that ends where one of its components ends are its components up
/// to that one.
proof fn lemma_cut_behind(p: Seq<u8>, k: int)
    requires
        0 <= k < spans(p).len(),
    ensures
        spans(p.take(spans(p)[k].1)) == spans(p).take(k + 1),
        components(p.take(spans(p)[k].1)) == components(p).take(k + 1),
{
    let (from, to) = spans(p)[k];
    let base = p.take(to);
    lemma_spans(p);
    lemma_spans(base);
    assert(spans(p).contains((from, to)));
    lemma_components_are_the_parts(p, from, to);
    if from == 0 && to == 1 && p[0] == SLASH {
        assert(k == 0) by {
            if k > 0 {
                assert(spans(p)[0].1 <= spans(p)[k].0);
            }
        }
        assert(spans_from(base, 1) =~= Seq::<(int, int)>::empty());
        assert(spans(base) =~= seq![(0int, 1int)]);
        assert(spans(p) == seq![(0int, 1int)] + spans_from(p, 1));
        assert(spans(p).take(k + 1) =~= seq![(0int, 1int)]);
    } else {
        let rest = spans_from(p, to);
        if to < p.len() {
            let tail = p.skip(to + 1);
            assert(p =~= base.push(SLASH) + tail);
            lemma_spans_extended(base, tail, 0);
        } else {
            assert(base =~= p);
            assert(rest =~= Seq::<(int, int)>::empty());
            assert(spans(p) =~= spans(base) + rest);
        }
        lemma_spans_from(p, to);
        let n = spans(base).len() as int;
        assert(n == k + 1) by {
            if n <= k {
                assert(spans(p)[k] == rest[k - n]);
                assert(to <= rest[k - n].0);
            }
            if n > k + 1 {
                assert(spans(p)[k + 1] == spans(base)[k + 1]);
                assert(spans(p)[k].1 <= spans(p)[k + 1].0);
                assert(spans(base)[k + 1].0 < spans(base)[k + 1].1 <= base.len());
            }
        }
        assert(spans(base) =~= spans(p).take(k + 1));
    }
    assert(components(base) =~= components(p).take(k + 1)) by {
        assert forall|j: int| 0 <= j < k + 1 implies components(base)[j] == components(p)[j] by {
            let s = spans(p)[j];
            assert(spans(base)[j] == s);
            if j < k {
                assert(s.1 <= spans(p)[k].0);
            }
            assert(base.subrange(s.0, s.1) =~= p.subrange(s.0, s.1));
        }
    }
}

/// A path has a parent unless it has no components or is the root directory; the parent
/// has all its components but the last, and is spelled as the path spells them.
pub proof fn lemma_parent_has_all_but_the_last(p: Seq<u8>)
    ensures
        parent_of(p) is None <==> components(p).len() == 0 || components(p).last() == seq![0x2fu8],
        parent_of(p) matches Some(q) ==> {
            &&& components(q) == components(p).drop_last()
            &&& q.len() <= p.len()
            &&& q == p.take(q.len() as int)
        },
{
    lemma_spans(p);
    if parent_of(p) is Some {
        let n = spans(p).len() as int;
        let q = parent_of(p)->0;
        if n == 1 {
            assert(spans_from(q, 0) =~= Seq::<(int, int)>::empty());
            assert(components(q) =~= components(p).drop_last());
            assert(q =~= p.take(0));
        } else {
            lemma_cut_behind(p, n - 2);
            assert(q =~= p.take(spans(p)[n - 2].1));
            assert(components(p).take(n - 1) =~= components(p).drop_last());
        }
    }
}

/// A path is called what its last component is, when that is a name and not the root
/// directory, `.` or `..`.
pub proof fn lemma_file_name_is_the_last_component(p: Seq<u8>)
    ensures
        file_name_of(p) matches Some(name) ==> components(p).len() > 0 && name
            == components(p).last() && name != seq![0x2fu8] && name != seq![0x2eu8] && name
            != seq![0x2eu8, 0x2eu8],
        file_name_of(p) is None ==> components(p).len() == 0 || components(p).last() == seq![0x2fu8]
            || components(p).last() == seq![0x2eu8] || components(p).last() == seq![
            0x2eu8,
            0x2eu8,
        ],
{
}

/// The ranges of `list`, each moved back by `n`.
spec fn moved_back(list: Seq<(int, int)>, n: int) -> Seq<(int, int)> {
    list.map_values(|s: (int, int)| (s.0 - n, s.1 - n))
}

proof fn lemma_part_end_behind(p: Seq<u8>, a: int, i: int)
    requires
        0 <= a <= i <= p.len(),
    ensures
        part_end(p.skip(a), i - a) == part_end(p, i) - a,
    decreases p.len() - i,
{
    if i < p.len() {
        assert(p.skip(a)[i - a] == p[i]);
        if p[i] != SLASH {
            lemma_part_end_behind(p, a, i + 1);
        }
    }
}

proof fn lemma_spans_behind(p: Seq<u8>, a: int, i: int)
    requires
        0 <= a <= i <= p.len(),
        i > a || a == 0 || (i < p.len() && p[i] != SLASH && !(p[i] == DOT && part_end(p, i) == i
            + 1)),
    ensures
        spans_from(p.skip(a), i - a) == moved_back(spans_from(p, i), a),
    decreases p.len() - i,
{
    let q = p.skip(a);
    if a == 0 {
        assert(q =~= p);
        assert(moved_back(spans_from(p, i), 0) =~= spans_from(p, i));
    } else if i < p.len() {
        assert(q[i - a] == p[i]);
        lemma_part_end(p, i);
        lemma_part_end(p, i + 1);
        let next = if p[i] == SLASH {
            i + 1
        } else {
            part_end(p, i)
        };
        lemma_part_end_behind(p, a, i);
        lemma_part_end(q, i - a);
        lemma_spans_behind(p, a, next);
        if p[i] != SLASH {
            assert(q.subrange(i - a, next - a) =~= p.subrange(i, next));
            if p.subrange(i, next) == seq![DOT] {
                assert(p.subrange(i, next).len() == 1);
                assert(p.subrange(i, next)[0] == p[i]);
            }
        }
        assert(spans_from(q, i - a) =~= moved_back(spans_from(p, i), a));
    } else {
        assert(spans_from(q, i - a) =~= moved_back(spans_from(p, i), a));
    }
}

proof fn lemma_spans_start_over(p: Seq<u8>, i: int, k: int)
    requires
        0 <= i <= p.len(),
        0 <= k < spans_from(p, i).len(),
    ensures
        spans_from(p, spans_from(p, i)[k].0) == spans_from(p, i).skip(k),
    decreases p.len() - i,
{
    lemma_spans_from(p, i);
    let all = spans_from(p, i);
    lemma_part_end(p, i);
    lemma_part_end(p, i + 1);
    let next = if p[i] == SLASH {
        i + 1
    } else {
        part_end(p, i)
    };
    let rest = spans_from(p, next);
    if all.len() > rest.len() {
        assert(all == seq![(i, next)] + rest);
        if k == 0 {
            assert(all.skip(0) =~= all);
        } else {
            lemma_spans_start_over(p, next, k - 1);
            assert(all[k] == rest[k - 1]);
            assert(all.skip(k) =~= rest.skip(k - 1));
        }
    } else {
        assert(all == rest);
        lemma_spans_start_over(p, next, k);
    }
}

/// What is left of a path below a directory is there exactly when the path lies in the
/// directory, and has the components that the directory does not have.
pub proof fn lemma_below_has_the_rest(p: Seq<u8>, base: Seq<u8>)
    ensures
        below(p, base) is Some <==> starts_with(p, base),
        below(p, base) matches Some(rest) ==> components(rest) == components(p).skip(
            components(base).len() as int,
        ),
{
    lemma_spans(p);
    lemma_spans(base);
    if below(p, base) is Some {
        let rest = below(p, base)->0;
        let n = components(base).len() as int;
        let all = spans(p);
        if n == all.len() {
            assert(spans_from(rest, 0) =~= Seq::<(int, int)>::empty());
            assert(components(rest) =~= components(p).skip(n));
        } else {
            let last = all.len() - 1;
            let q = p.take(all[last].1);
            let a = all[n].0;
            lemma_cut_behind(p, last);
            assert(all.take(last + 1) =~= all);
            assert(components(p).take(last + 1) =~= components(p));
            assert(spans(q) == all);
            assert(all[n].1 <= all[last].1) by {
                if n < last {
                    assert(all[n].1 <= all[last].0);
                }
            }
            assert(rest =~= q.skip(a));
            assert(all.contains((a, all[n].1)));
            assert(spans(q).contains((a, all[n].1)));
            lemma_components_are_the_parts(q, a, all[n].1);
            if a > 0 {
                lemma_part_end(q, a);
                assert(part_end(q, a) == all[n].1) by {
                    let e = part_end(q, a);
                    if e < all[n].1 {
                        assert(q[e] != SLASH);
                    }
                    if all[n].1 < e {
                        assert(q[all[n].1] != SLASH);
                    }
                }
            }
            lemma_spans_behind(q, a, a);
            lemma_spans_start_over(q, 0, n);
            assert(spans(rest) == moved_back(all.skip(n), a));
            assert(components(rest) =~= components(p).skip(n)) by {
                assert forall|j: int| 0 <= j < all.len() - n implies components(rest)[j]
                    == components(p)[n + j] by {
                    let s = all[n + j];
                    assert(spans(rest)[j] == (s.0 - a, s.1 - a));
                    assert(a <= s.0 && s.1 <= all[last].1) by {
                        if j > 0 {
                            assert(all[n].1 <= all[n + j].0);
                        }
                        if n + j < last {
                            assert(all[n + j].1 <= all[last].0);
                        }
                    }
                    assert(rest.subrange(s.0 - a, s.1 - a) =~= p.subrange(s.0, s.1));
                }
            }
        }
    }
}

/// The entries of a search path put together again with colons.
pub open spec fn with_colons(list: Seq<Seq<u8>>) -> Seq<u8>
    decreases list.len(),
{
    if list.len() == 0 {
        Seq::empty()
    } else if list.len() == 1 {
        list[0]
    } else {
        list[0].push(COLON) + with_colons(list.skip(1))
    }
}

proof fn lemma_entry_end_is_first(p: Seq<u8>, i: int)
    requires
        0 <= i <= p.len(),
    ensures
        i <= entry_end(p, i) <= p.len(),
        forall|j: int| i <= j < entry_end(p, i) ==> p[j] != COLON,
        entry_end(p, i) < p.len() ==> p[entry_end(p, i)] == COLON,
    decreases p.len() - i,
{
    if i < p.len() && p[i] != COLON {
        lemma_entry_end_is_first(p, i + 1);
    }
}

/// A search path is its entries with a colon between each two of them, and no entry has
/// a colon in it: that leaves nothing open about what the entries are.
pub proof fn lemma_entries_are_between_colons(p: Seq<u8>, i: int)
    requires
        0 <= i <= p.len(),
    ensures
        entries_from(p, i).len() > 0,
        with_colons(entries_from(p, i)) == p.skip(i),
        forall|k: int|
            0 <= k < entries_from(p, i).len() ==> !(#[trigger] entries_from(p, i)[k]).contains(
                0x3a,
            ),
    decreases p.len() - i,
{
    lemma_entry_end_is_first(p, i);
    let end = entry_end(p, i);
    let all = entries_from(p, i);
    if end < p.len() {
        lemma_entries_are_between_colons(p, end + 1);
        let rest = entries_from(p, end + 1);
        assert(all.skip(1) =~= rest);
        assert(with_colons(all) =~= p.skip(i));
        assert forall|k: int| 0 <= k < all.len() implies !(#[trigger] all[k]).contains(COLON) by {
            if k > 0 {
                assert(all[k] == rest[k - 1]);
            }
        }
    } else {
        assert(with_colons(all) =~= p.skip(i));
    }
}

/// Of a search path the absolute entries count, in order, and no others; `q` says which
/// entries they are.
pub proof fn lemma_absolute_entries_count(list: Seq<Seq<u8>>) -> (q: Seq<int>)
    ensures
        q.len() == absolute_only(list).len(),
        forall|a: int|
            0 <= a < q.len() ==> 0 <= #[trigger] q[a] < list.len() && absolute_only(list)[a]
                == list[q[a]] && list[q[a]].len() > 0 && list[q[a]][0] == 0x2f,
        forall|a: int, b: int| 0 <= a < b < q.len() ==> #[trigger] q[a] < #[trigger] q[b],
        forall|i: int|
            0 <= i < list.len() && (#[trigger] list[i]).len() > 0 && list[i][0] == 0x2f
                ==> q.contains(i),
    decreases list.len(),
{
    if list.len() == 0 {
        Seq::empty()
    } else {
        let shorter = list.drop_last();
        let r = lemma_absolute_entries_count(shorter);
        let n = list.len() - 1;
        let q = if is_absolute(list.last()) {
            r.push(n)
        } else {
            r
        };
        assert forall|a: int| 0 <= a < q.len() implies 0 <= #[trigger] q[a] < list.len()
            && absolute_only(list)[a] == list[q[a]] && list[q[a]].len() > 0 && list[q[a]][0]
            == 0x2f by {
            if a < r.len() {
                assert(q[a] == r[a]);
                assert(shorter[r[a]] == list[r[a]]);
            }
        }
        assert forall|i: int|
            0 <= i < list.len() && (#[trigger] list[i]).len() > 0 && list[i][0] == 0x2f implies
            q.contains(i) by {
            if i < n {
                assert(shorter[i] == list[i]);
                let a = choose|a: int| 0 <= a < r.len() && r[a] == i;
                assert(q[a] == i);
            } else {
                assert(q[q.len() - 1] == i);
            }
        }
        q
    }
}

/// The first byte in which two names differ decides which comes first; where there is
/// none, the shorter comes first.
pub proof fn lemma_first_different_byte_decides(a: Seq<u8>, b: Seq<u8>, k: int)
    requires
        0 <= k <= a.len(),
        k <= b.len(),
        forall|j: int| 0 <= j < k ==> a[j] == b[j],
        k < a.len() && k < b.len() ==> a[k] != b[k],
    ensures
        bytes_before(a, b) <==> k < b.len() && (k == a.len() || a[k] < b[k]),
    decreases k,
{
    if k > 0 {
        assert(a[0] == b[0]);
        assert forall|j: int| 0 <= j < k - 1 implies a.skip(1)[j] == b.skip(1)[j] by {
            assert(a[j + 1] == b[j + 1]);
        }
        lemma_first_different_byte_decides(a.skip(1), b.skip(1), k - 1);
    }
}

proof fn lemma_first_different_component(a: Seq<Seq<u8>>, b: Seq<Seq<u8>>, k: int)
    requires
        0 <= k <= a.len(),
        k <= b.len(),
        forall|j: int| 0 <= j < k ==> a[j] == b[j],
        k < a.len() && k < b.len() ==> a[k] != b[k],
    ensures
        components_before(a, b) <==> k < b.len() && (k == a.len() || component_before(a[k], b[k])),
    decreases k,
{
    if k > 0 {
        assert(a[0] == b[0]);
        assert forall|j: int| 0 <= j < k - 1 implies a.skip(1)[j] == b.skip(1)[j] by {
            assert(a[j + 1] == b[j + 1]);
        }
        lemma_first_different_component(a.skip(1), b.skip(1), k - 1);
    }
}

/// The first component in which two paths differ decides which comes first; where there
/// is none, the one with fewer components does. The root directory comes before `.`,
/// that before `..` and that before every name; two names go by their bytes.
pub proof fn lemma_first_different_component_decides(p: Seq<u8>, q: Seq<u8>, k: int)
    requires
        0 <= k <= components(p).len(),
        k <= components(q).len(),
        forall|j: int| 0 <= j < k ==> components(p)[j] == components(q)[j],
        k < components(p).len() && k < components(q).len() ==> components(p)[k] != components(q)[k],
    ensures
        k == components(q).len() ==> !path_before(p, q),
        k < components(q).len() && k == components(p).len() ==> path_before(p, q),
        k < components(q).len() && k < components(p).len() ==> {
            let (a, b) = (components(p)[k], components(q)[k]);
            let special = |c: Seq<u8>| c == seq![0x2fu8] || c == seq![0x2eu8] || c == seq![
                0x2eu8,
                0x2eu8,
            ];
            &&& a == seq![0x2fu8] ==> path_before(p, q)
            &&& b == seq![0x2fu8] ==> !path_before(p, q)
            &&& a == seq![0x2eu8] && b != seq![0x2fu8] ==> path_before(p, q)
            &&& b == seq![0x2eu8] && a != seq![0x2fu8] ==> !path_before(p, q)
            &&& a == seq![0x2eu8, 0x2eu8] && !special(b) ==> path_before(p, q)
            &&& b == seq![0x2eu8, 0x2eu8] && !special(a) ==> !path_before(p, q)
            &&& !special(a) && !special(b) ==> path_before(p, q) == bytes_before(a, b)
        },
{
    lemma_first_different_component(components(p), components(q), k);
    assert(seq![0x2fu8] != seq![0x2eu8]) by {
        assert(seq![0x2fu8][0] != seq![0x2eu8][0]);
    }
    assert(seq![0x2eu8].len() != seq![0x2eu8, 0x2eu8].len());
    assert(seq![0x2fu8].len() != seq![0x2eu8, 0x2eu8].len());
}

} // verus!
