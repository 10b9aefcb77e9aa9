//! A leaf's text: a bounded UTF-8 buffer, split logically into two halves,
//! with cached summaries.

use vstd::prelude::*;
use vstd::string::StringSliceAdditionalSpecFns;
use vstd::utf8::*;
use crate::{MAX_BYTES, MIN_BYTES};
use crate::text_info::{TextInfo, info_of};
use crate::str_utils::mid_crlf;

verus! {

/// UTF-8 encoding distributes over concatenation.
pub proof fn lemma_encode_concat(a: Seq<char>, b: Seq<char>)
    ensures
        encode_utf8(a + b) == encode_utf8(a) + encode_utf8(b),
    decreases a.len(),
{
    if a.len() == 0 {
        assert(a + b =~= b);
        assert(encode_utf8(a) =~= Seq::<u8>::empty());
        assert(encode_utf8(a) + encode_utf8(b) =~= encode_utf8(b));
    } else {
        assert((a + b).drop_first() =~= a.drop_first() + b);
        assert((a + b)[0] == a[0]);
        lemma_encode_concat(a.drop_first(), b);
        assert(encode_utf8(a + b) =~= encode_utf8(a) + encode_utf8(b));
    }
}

/// Some char boundary lies at most three bytes after `x`.
pub proof fn lemma_boundary_within_3(s: Seq<u8>, x: int)
    requires
        valid_utf8(s),
        0 <= x <= s.len(),
    ensures
        exists|p: int| x <= p <= x + 3 && p <= s.len() && is_char_boundary(s, p),
    decreases s.len(),
{
    if x == 0 {
        assert(is_char_boundary(s, 0));
    } else {
        let k = length_of_first_scalar(s);
        let t = pop_first_scalar(s);
        assert(t.len() == s.len() - k);
        if x >= k {
            lemma_boundary_within_3(t, x - k);
            let q = choose|q: int| x - k <= q <= x - k + 3 && q <= t.len() && is_char_boundary(t, q);
            assert(is_char_boundary(s, q + k));
        } else {
            assert(is_char_boundary(t, 0));
            assert(is_char_boundary(s, k));
        }
    }
}

/// A place where text may be cut: a char boundary that does not fall between
/// a CR and its LF.
pub open spec fn is_split_point(s: Seq<u8>, q: int) -> bool {
    is_char_boundary(s, q) && !mid_crlf(s, q)
}

/// Some split point lies at most four bytes after `x`.
pub proof fn lemma_split_point_within_4(s: Seq<u8>, x: int)
    requires
        valid_utf8(s),
        0 <= x <= s.len(),
    ensures
        exists|p: int| x <= p <= x + 4 && p <= s.len() && is_split_point(s, p),
{
    lemma_boundary_within_3(s, x);
    let p = choose|p: int| x <= p <= x + 3 && p <= s.len() && is_char_boundary(s, p);
    if !mid_crlf(s, p) {
        assert(is_split_point(s, p));
    } else if p > x {
        is_char_boundary_iff_not_is_continuation_byte(s, p - 1);
        assert(is_split_point(s, p - 1));
    } else {
        lemma_boundary_within_3(s, x + 1);
        let p2 = choose|p2: int| x + 1 <= p2 <= x + 4 && p2 <= s.len() && is_char_boundary(s, p2);
        if mid_crlf(s, p2) {
            is_char_boundary_iff_not_is_continuation_byte(s, p2 - 1);
            assert(is_split_point(s, p2 - 1));
        } else {
            assert(is_split_point(s, p2));
        }
    }
}

/// A char boundary lies within the sequence.
pub proof fn lemma_boundary_in_range(s: Seq<u8>, i: int)
    requires
        valid_utf8(s),
        is_char_boundary(s, i),
    ensures
        0 <= i <= s.len(),
{
}

/// A char boundary of `s` past `lo` stays one in the suffix from `lo`.
pub proof fn lemma_boundary_in_suffix(s: Seq<u8>, lo: int, j: int)
    requires
        valid_utf8(s),
        0 <= lo <= s.len(),
        0 <= j <= s.len() - lo,
        is_char_boundary(s, lo),
        is_char_boundary(s, lo + j),
    ensures
        valid_utf8(s.subrange(lo, s.len() as int)),
        is_char_boundary(s.subrange(lo, s.len() as int), j),
{
    let t = s.subrange(lo, s.len() as int);
    valid_utf8_split(s, lo);
    is_char_boundary_start_end_of_seq(t);
    if 0 < j < t.len() {
        is_char_boundary_iff_not_is_continuation_byte(s, lo + j);
        is_char_boundary_iff_not_is_continuation_byte(t, j);
    }
}

/// Whether `q` is a split point of `text`.
fn split_point_at(text: &str, q: usize) -> (r: bool)
    ensures
        r == is_split_point(text.spec_bytes(), q as int),
{
    let s = text.as_bytes();
    text.is_char_boundary(q) && !(0 < q && q < s.len() && s[q - 1] == 0x0D && s[q] == 0x0A)
}

/// The nearest split point at or before `hint`.
fn split_point_before(text: &str, hint: usize) -> (r: usize)
    requires
        hint <= text.spec_bytes().len(),
    ensures
        r <= hint,
        is_split_point(text.spec_bytes(), r as int),
{
    let mut q = hint;
    proof {
        encode_utf8_valid_utf8(text@);
        is_char_boundary_start_end_of_seq(text.spec_bytes());
    }
    while !split_point_at(text, q)
        invariant
            q <= hint <= text.spec_bytes().len(),
            is_char_boundary(text.spec_bytes(), 0),
        decreases q,
    {
        q = q - 1;
    }
    q
}

/// A split point near the middle of `text` that leaves at most `MAX_BYTES`
/// bytes on each side.
fn balanced_split_point(text: &str) -> (q: usize)
    requires
        text.spec_bytes().len() + 4 <= 2 * MAX_BYTES,
    ensures
        is_split_point(text.spec_bytes(), q as int),
        q <= MAX_BYTES,
        text.spec_bytes().len() - q <= MAX_BYTES,
        text.spec_bytes().len() / 2 - 4 <= q <= text.spec_bytes().len() / 2 + 4,
{
    let s = text.as_bytes();
    let n = s.len();
    let ghost b = text.spec_bytes();
    proof {
        encode_utf8_valid_utf8(text@);
        is_char_boundary_start_end_of_seq(b);
    }
    let lo: usize = if n > MAX_BYTES {
        n - MAX_BYTES
    } else {
        0
    };
    let m: usize = n / 2;
    let ghost w: int = m as int;
    proof {
        if lo + 4 <= m {
            lemma_split_point_within_4(b, m - 4);
            w = choose|p: int| m - 4 <= p <= m && p <= b.len() && is_split_point(b, p);
        }
    }
    let mut q: usize = m;
    loop
        invariant
            n == b.len(),
            b == text.spec_bytes(),
            n + 4 <= 2 * MAX_BYTES,
            lo == (if n > MAX_BYTES { n - MAX_BYTES } else { 0 }),
            m == n / 2,
            lo <= q <= m,
            is_char_boundary(b, 0),
            forall|j: int| q < j <= m ==> !is_split_point(b, j),
            lo + 4 <= m ==> m - 4 <= w <= m && is_split_point(b, w) && w <= q,
        ensures
            forall|j: int| lo <= j <= m ==> !is_split_point(b, j),
            lo + 4 <= m ==> m - 4 <= w <= m && is_split_point(b, w),
        decreases q,
    {
        if split_point_at(text, q) {
            return q;
        }
        if q == lo {
            break;
        }
        q = q - 1;
    }
    let ghost w2: int;
    proof {
        lemma_split_point_within_4(b, lo as int);
        w2 = choose|p: int| lo <= p <= lo + 4 && p <= b.len() && is_split_point(b, p);
    }
    let mut q: usize = m + 1;
    loop
        invariant
            n == b.len(),
            b == text.spec_bytes(),
            n + 4 <= 2 * MAX_BYTES,
            lo == (if n > MAX_BYTES { n - MAX_BYTES } else { 0 }),
            m == n / 2,
            lo + 4 > m,
            m < q <= w2,
            lo <= w2 <= lo + 4,
            w2 <= n,
            is_split_point(b, w2),
        decreases w2 - q,
    {
        if split_point_at(text, q) {
            return q;
        }
        q = q + 1;
    }
}

/// `a` followed by `b`, as a new string.
fn concat(a: &str, b: &str) -> (r: String)
    ensures
        encode_utf8(r@) == a.spec_bytes() + b.spec_bytes(),
{
    let mut r = String::from_str(a);
    r.append(b);
    proof {
        lemma_encode_concat(a@, b@);
    }
    r
}

/// The text of one leaf.
pub struct LeafText {
    text: String,
    split: usize,
    left_info: TextInfo,
    info: TextInfo,
}

impl Clone for LeafText {
    fn clone(&self) -> (r: Self)
        ensures
            r == *self,
    {
        LeafText {
            text: self.text.clone(),
            split: self.split,
            left_info: self.left_info,
            info: self.info,
        }
    }
}

impl LeafText {
    /// The bytes held.
    pub closed spec fn bytes(&self) -> Seq<u8> {
        encode_utf8(self.text@)
    }

    /// Where the left half ends.
    pub closed spec fn split_idx(&self) -> int {
        self.split as int
    }

    pub closed spec fn wf(&self) -> bool {
        &&& self.bytes().len() <= MAX_BYTES
        &&& is_split_point(self.bytes(), self.split as int)
        &&& self.left_info == info_of(self.bytes().subrange(0, self.split as int))
        &&& self.info == info_of(self.bytes())
    }

    /// A well-formed leaf holds valid UTF-8 with its cut at a split point.
    pub proof fn lemma_wf(&self)
        requires
            self.wf(),
        ensures
            valid_utf8(self.bytes()),
            self.bytes().len() <= MAX_BYTES,
            is_split_point(self.bytes(), self.split_idx()),
            0 <= self.split_idx() <= self.bytes().len(),
    {
        encode_utf8_valid_utf8(self.text@);
    }

    /// A leaf holding `text`, cut at the nearest split point before `hint`.
    fn from_string(text: String, hint: usize) -> (r: LeafText)
        requires
            encode_utf8(text@).len() <= MAX_BYTES,
            hint <= encode_utf8(text@).len(),
        ensures
            r.wf(),
            r.bytes() == encode_utf8(text@),
            r.split_idx() <= hint,
    {
        let split = split_point_before(text.as_str(), hint);
        let (l, _) = text.as_str().split_at(split);
        let left_info = TextInfo::from_str(l);
        let info = TextInfo::from_str(text.as_str());
        LeafText { text, split, left_info, info }
    }

    /// An empty leaf.
    pub fn new() -> (r: LeafText)
        ensures
            r.wf(),
            r.bytes().len() == 0,
    {
        let text = String::new();
        proof {
            assert(encode_utf8(text@) =~= Seq::<u8>::empty());
        }
        LeafText::from_string(text, 0)
    }

    /// A leaf holding `s`.
    pub fn from_str(s: &str) -> (r: LeafText)
        requires
            s.spec_bytes().len() <= MAX_BYTES,
        ensures
            r.wf(),
            r.bytes() == s.spec_bytes(),
    {
        let text = String::from_str(s);
        let n = s.len();
        LeafText::from_string(text, n)
    }

    /// Length in bytes.
    pub fn len(&self) -> (r: usize)
        requires
            self.wf(),
        ensures
            r == self.bytes().len(),
    {
        self.text.as_str().len()
    }

    /// How many more bytes fit.
    pub fn free_capacity(&self) -> (r: usize)
        requires
            self.wf(),
        ensures
            r == MAX_BYTES - self.bytes().len(),
    {
        MAX_BYTES - self.text.as_str().len()
    }

    /// Whether `byte_idx` is a char boundary of the text.
    pub fn is_char_boundary(&self, byte_idx: usize) -> (r: bool)
        ensures
            r == is_char_boundary(self.bytes(), byte_idx as int),
    {
        self.text.as_str().is_char_boundary(byte_idx)
    }

    /// Whether the text is empty.
    pub fn text_is_empty(&self) -> (r: bool)
        ensures
            r == (self.bytes().len() == 0),
    {
        let r = self.text.as_str().is_empty();
        proof {
            if self.text@.len() > 0 {
                assert(self.bytes().len() >= encode_scalar(self.text@[0] as u32).len());
            }
        }
        r
    }

    /// The cached summary of the whole text.
    pub fn text_info(&self) -> (r: TextInfo)
        requires
            self.wf(),
        ensures
            r == info_of(self.bytes()),
    {
        self.info
    }

    /// The cached summary of the left half.
    pub fn left_info(&self) -> (r: TextInfo)
        requires
            self.wf(),
        ensures
            r == info_of(self.bytes().subrange(0, self.split_idx())),
    {
        self.left_info
    }

    /// The whole text.
    pub fn as_str(&self) -> (r: &str)
        ensures
            r.spec_bytes() == self.bytes(),
    {
        self.text.as_str()
    }

    /// The two halves of the text, left then right.
    pub fn chunks(&self) -> (r: [&str; 2])
        requires
            self.wf(),
        ensures
            r[0].spec_bytes() == self.bytes().subrange(0, self.split_idx()),
            r[1].spec_bytes() == self.bytes().subrange(self.split_idx(), self.bytes().len() as int),
    {
        let (a, b) = self.text.as_str().split_at(self.split);
        [a, b]
    }
    /// Inserts `s` at `byte_idx`.  Fails, changing nothing, when `byte_idx`
    /// is not a char boundary.  The caller keeps the result within `MAX_BYTES`.
    pub fn insert_str(&mut self, byte_idx: usize, s: &str) -> (r: Result<(), ()>)
        requires
            old(self).wf(),
            old(self).bytes().len() + s.spec_bytes().len() <= MAX_BYTES,
        ensures
            r is Err <==> !is_char_boundary(old(self).bytes(), byte_idx as int),
            r is Err ==> *final(self) == *old(self),
            r is Ok ==> final(self).wf() && final(self).bytes() == old(self).bytes().subrange(
                0,
                byte_idx as int,
            ) + s.spec_bytes() + old(self).bytes().subrange(
                byte_idx as int,
                old(self).bytes().len() as int,
            ),
    {
        if !self.text.as_str().is_char_boundary(byte_idx) {
            return Err(());
        }
        proof {
            self.lemma_wf();
            lemma_boundary_in_range(self.bytes(), byte_idx as int);
        }
        let (a, b) = self.text.as_str().split_at(byte_idx);
        let head = concat(a, s);
        let c = concat(head.as_str(), b);
        proof {
            assert(a.spec_bytes().len() + b.spec_bytes().len() == self.bytes().len());
        }
        *self = LeafText::from_string(c, byte_idx);
        Ok(())
    }

    /// Appends `s` at the end.  The caller keeps the result within `MAX_BYTES`.
    pub fn append_str(&mut self, s: &str)
        requires
            old(self).wf(),
            old(self).bytes().len() + s.spec_bytes().len() <= MAX_BYTES,
        ensures
            final(self).wf(),
            final(self).bytes() == old(self).bytes() + s.spec_bytes(),
    {
        let n = self.text.as_str().len();
        let c = concat(self.text.as_str(), s);
        *self = LeafText::from_string(c, n);
    }

    /// Removes the bytes in `[byte_idx_range[0], byte_idx_range[1])`.  Fails,
    /// changing nothing, when either end is not a char boundary.
    pub fn remove(&mut self, byte_idx_range: [usize; 2]) -> (r: Result<(), ()>)
        requires
            old(self).wf(),
            byte_idx_range[0] <= byte_idx_range[1],
        ensures
            r is Err <==> !(is_char_boundary(old(self).bytes(), byte_idx_range[0] as int)
                && is_char_boundary(old(self).bytes(), byte_idx_range[1] as int)),
            r is Err ==> *final(self) == *old(self),
            r is Ok ==> final(self).wf() && final(self).bytes() == old(self).bytes().subrange(
                0,
                byte_idx_range[0] as int,
            ) + old(self).bytes().subrange(
                byte_idx_range[1] as int,
                old(self).bytes().len() as int,
            ),
    {
        let lo = byte_idx_range[0];
        let hi = byte_idx_range[1];
        if !self.text.as_str().is_char_boundary(lo) || !self.text.as_str().is_char_boundary(hi) {
            return Err(());
        }
        let ghost old_bytes = self.bytes();
        proof {
            self.lemma_wf();
            lemma_boundary_in_range(old_bytes, lo as int);
            lemma_boundary_in_range(old_bytes, hi as int);
            lemma_boundary_in_suffix(old_bytes, lo as int, hi - lo);
        }
        let (a, rest) = self.text.as_str().split_at(lo);
        let (_, c) = rest.split_at(hi - lo);
        proof {
            assert(c.spec_bytes() =~= old_bytes.subrange(hi as int, old_bytes.len() as int));
        }
        let t = concat(a, c);
        *self = LeafText::from_string(t, lo);
        Ok(())
    }

    /// Splits the text at `byte_idx`, keeping the left part and returning the
    /// right part.  Where `byte_idx` falls between a CR and its LF, the cut
    /// moves back one byte so that the pair stays together.
    pub fn split(&mut self, byte_idx: usize) -> (r: LeafText)
        requires
            old(self).wf(),
            is_char_boundary(old(self).bytes(), byte_idx as int),
        ensures
            final(self).wf(),
            r.wf(),
            final(self).bytes() + r.bytes() == old(self).bytes(),
            final(self).bytes().len() == if mid_crlf(old(self).bytes(), byte_idx as int) {
                byte_idx - 1
            } else {
                byte_idx as int
            },
    {
        proof {
            self.lemma_wf();
        }
        let ghost old_bytes = self.bytes();
        proof {
            lemma_boundary_in_range(old_bytes, byte_idx as int);
        }
        let s = self.text.as_str().as_bytes();
        let j = if 0 < byte_idx && byte_idx < s.len() && s[byte_idx - 1] == 0x0D && s[byte_idx]
            == 0x0A {
            proof {
                is_char_boundary_iff_not_is_continuation_byte(old_bytes, byte_idx - 1);
            }
            byte_idx - 1
        } else {
            byte_idx
        };
        proof {
            lemma_boundary_in_range(old_bytes, j as int);
        }
        let (a, b) = self.text.as_str().split_at(j);
        proof {
            assert(a.spec_bytes() + b.spec_bytes() =~= old_bytes);
        }
        let right = LeafText::from_str(b);
        *self = LeafText::from_str(a);
        right
    }

    /// Moves bytes between `self` and its right neighbour `other` so that
    /// each holds about half of their joint text, cut at a split point.
    pub fn distribute(&mut self, other: &mut LeafText)
        requires
            old(self).wf(),
            old(other).wf(),
            old(self).bytes().len() + old(other).bytes().len() + 4 <= 2 * MAX_BYTES,
        ensures
            final(self).wf(),
            final(other).wf(),
            final(self).bytes() + final(other).bytes() == old(self).bytes() + old(other).bytes(),
            is_split_point(
                old(self).bytes() + old(other).bytes(),
                final(self).bytes().len() as int,
            ),
            (old(self).bytes().len() + old(other).bytes().len()) / 2 - 4 <= final(self).bytes().len(),
            final(self).bytes().len() <= (old(self).bytes().len() + old(other).bytes().len()) / 2 + 4,
            old(self).bytes().len() + old(other).bytes().len() >= 2 * MIN_BYTES + 8
                ==> final(self).bytes().len() >= MIN_BYTES && final(other).bytes().len() >= MIN_BYTES,
    {
        let c = concat(self.text.as_str(), other.text.as_str());
        let (l, r) = LeafText::halves_of(&c);
        *self = l;
        *other = r;
    }

    /// Inserts `s` at `byte_idx` into a leaf too small to take it: the joint
    /// text is cut in two about its middle, the left part kept and the right
    /// part returned.  Fails, changing nothing, when `byte_idx` is not a char
    /// boundary.
    pub fn insert_str_split(&mut self, byte_idx: usize, s: &str) -> (r: Result<LeafText, ()>)
        requires
            old(self).wf(),
            old(self).bytes().len() + s.spec_bytes().len() + 4 <= 2 * MAX_BYTES,
        ensures
            r is Err <==> !is_char_boundary(old(self).bytes(), byte_idx as int),
            r is Err ==> *final(self) == *old(self),
            r matches Ok(right) ==> final(self).wf() && right.wf() && final(self).bytes()
                + right.bytes() == old(self).bytes().subrange(0, byte_idx as int) + s.spec_bytes()
                + old(self).bytes().subrange(byte_idx as int, old(self).bytes().len() as int)
                && is_split_point(
                final(self).bytes() + right.bytes(),
                final(self).bytes().len() as int,
            ) && (old(self).bytes().len() + s.spec_bytes().len() >= 2 * MIN_BYTES + 8
                ==> final(self).bytes().len() >= MIN_BYTES && right.bytes().len() >= MIN_BYTES),
    {
        if !self.text.as_str().is_char_boundary(byte_idx) {
            return Err(());
        }
        proof {
            self.lemma_wf();
            lemma_boundary_in_range(self.bytes(), byte_idx as int);
        }
        let (a, b) = self.text.as_str().split_at(byte_idx);
        let head = concat(a, s);
        let c = concat(head.as_str(), b);
        proof {
            assert(a.spec_bytes().len() + b.spec_bytes().len() == self.bytes().len());
        }
        let (l, r) = LeafText::halves_of(&c);
        *self = l;
        Ok(r)
    }

    /// Two leaves holding `c`, cut at a split point near its middle.
    fn halves_of(c: &String) -> (r: (LeafText, LeafText))
        requires
            encode_utf8(c@).len() + 4 <= 2 * MAX_BYTES,
        ensures
            r.0.wf(),
            r.1.wf(),
            r.0.bytes() + r.1.bytes() == encode_utf8(c@),
            is_split_point(encode_utf8(c@), r.0.bytes().len() as int),
            encode_utf8(c@).len() / 2 - 4 <= r.0.bytes().len() <= encode_utf8(c@).len() / 2 + 4,
    {
        let q = balanced_split_point(c.as_str());
        proof {
            encode_utf8_valid_utf8(c@);
            lemma_boundary_in_range(encode_utf8(c@), q as int);
        }
        let (a, b) = c.as_str().split_at(q);
        proof {
            assert(a.spec_bytes() + b.spec_bytes() =~= encode_utf8(c@));
        }
        (LeafText::from_str(a), LeafText::from_str(b))
    }
}

} // verus!
