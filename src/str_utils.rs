//! Metric counting and conversion inside one contiguous UTF-8 buffer.

use vstd::prelude::*;
use vstd::string::StringSliceAdditionalSpecFns;
use vstd::utf8::*;
use crate::text_info::{
    LineType,
    Metric,
    metric_at,
    metric_count,
    char_count,
    utf16_count,
    line_break_count,
    is_cont,
    metric_at_byte,
    lemma_count_push,
    lemma_count_le_len,
    lemma_count_prefix_le,
    lemma_valid_starts_clean,
};

verus! {

/// Position `p` lies between the CR and the LF of a CRLF pair.
pub open spec fn mid_crlf(s: Seq<u8>, p: int) -> bool {
    0 < p < s.len() && s[p - 1] == 0x0D && s[p] == 0x0A
}

/// The number of Unicode line breaks that are complete before byte `p`: a CR
/// whose LF comes at `p` or later does not end its break yet.
pub open spec fn breaks_before(s: Seq<u8>, p: int) -> int {
    line_break_count(s.subrange(0, p), LineType::Unicode) - if mid_crlf(s, p) {
        1int
    } else {
        0int
    }
}

/// The largest char boundary at or before `p`.
pub open spec fn floor_boundary(s: Seq<u8>, p: int) -> int
    decreases p,
{
    if p <= 0 {
        0
    } else if is_char_boundary(s, p) {
        p
    } else {
        floor_boundary(s, p - 1)
    }
}

/// The char index that byte `i` belongs to; past the end, the char count.
pub open spec fn byte_to_char_spec(s: Seq<u8>, i: int) -> int {
    if i >= s.len() {
        char_count(s) as int
    } else {
        char_count(s.subrange(0, i + 1)) - 1
    }
}

/// The line that byte `i` lies on; past the end, the last line.
pub open spec fn byte_to_line_spec(s: Seq<u8>, i: int) -> int {
    breaks_before(s, floor_boundary(s, if i < s.len() { i } else { s.len() as int }))
}

/// `r` is where char `c` starts, or the end when there is no such char.
pub open spec fn is_char_start_of(s: Seq<u8>, c: int, r: int) -> bool {
    if c >= char_count(s) {
        r == s.len()
    } else {
        0 <= r < s.len() && !is_cont(s[r]) && char_count(s.subrange(0, r)) == c
    }
}

/// `r` is where line `l` starts: right after its `l`-th line break, or the
/// end when there are fewer breaks.
pub open spec fn is_line_start_of(s: Seq<u8>, l: int, r: int) -> bool {
    if l == 0 {
        r == 0
    } else if l > line_break_count(s, LineType::Unicode) {
        r == s.len()
    } else {
        0 < r <= s.len() && breaks_before(s, r) == l && breaks_before(s, r - 1) < l
    }
}

/// Counting complete breaks never steps by more than one per byte.
pub proof fn lemma_breaks_before_step(s: Seq<u8>, p: int)
    requires
        0 <= p < s.len(),
    ensures
        breaks_before(s, p) <= breaks_before(s, p + 1) <= breaks_before(s, p) + 1,
{
    lemma_count_push(s, p, Metric::Lines(LineType::Unicode));
}

/// Counting complete breaks is monotone.
pub proof fn lemma_breaks_before_mono(s: Seq<u8>, p: int, q: int)
    requires
        0 <= p <= q <= s.len(),
    ensures
        breaks_before(s, p) <= breaks_before(s, q),
    decreases q - p,
{
    if p < q {
        lemma_breaks_before_step(s, p);
        lemma_breaks_before_mono(s, p + 1, q);
    }
}

/// The number of positions below `end` at which `m` counts.
fn count_prefix(s: &[u8], end: usize, m: Metric) -> (r: usize)
    requires
        end <= s@.len(),
    ensures
        r == metric_count(s@.subrange(0, end as int), m),
{
    let mut count: usize = 0;
    let mut i: usize = 0;
    while i < end
        invariant
            i <= end <= s@.len(),
            count == metric_count(s@.subrange(0, i as int), m),
        decreases end - i,
    {
        proof {
            lemma_count_push(s@, i as int, m);
            lemma_count_le_len(s@.subrange(0, i as int), m);
        }
        if metric_at_byte(s, i, m) {
            count = count + 1;
        }
        i = i + 1;
    }
    count
}

/// Counts the Unicode scalars of `text`.
pub fn count_chars(text: &str) -> (r: usize)
    ensures
        r == char_count(text.spec_bytes()),
{
    let s = text.as_bytes();
    let r = count_prefix(s, s.len(), Metric::Chars);
    assert(s@.subrange(0, s@.len() as int) =~= s@);
    r
}

/// Counts the line breaks of `text`: LF, VT, FF, CR, NEL, LS and PS, with
/// CR+LF counted once.
pub fn count_line_breaks(text: &str) -> (r: usize)
    ensures
        r == line_break_count(text.spec_bytes(), LineType::Unicode),
{
    let s = text.as_bytes();
    let r = count_prefix(s, s.len(), Metric::Lines(LineType::Unicode));
    assert(s@.subrange(0, s@.len() as int) =~= s@);
    r
}

/// Converts a byte index to a char index.  A byte inside a multi-byte char
/// maps to that char; any past-the-end index maps to the char count.
pub fn byte_to_char_idx(text: &str, byte_idx: usize) -> (r: usize)
    ensures
        r == byte_to_char_spec(text.spec_bytes(), byte_idx as int),
{
    let s = text.as_bytes();
    proof {
        encode_utf8_valid_utf8(text@);
    }
    if byte_idx >= s.len() {
        count_chars(text)
    } else {
        let c = count_prefix(s, byte_idx + 1, Metric::Chars);
        proof {
            let p = s@.subrange(0, byte_idx + 1);
            is_char_boundary_start_end_of_seq(s@);
            is_char_boundary_iff_not_is_continuation_byte(s@, 0);
            lemma_count_prefix_le(p, 1, Metric::Chars);
            assert(p.subrange(0, 1).drop_last().len() == 0);
            reveal_with_fuel(metric_count, 2);
            assert(metric_at(p.subrange(0, 1), 0, Metric::Chars));
        }
        c - 1
    }
}

/// Converts a char index to the byte index where that char starts.  Any
/// past-the-end index maps to the byte length.
pub fn char_to_byte_idx(text: &str, char_idx: usize) -> (r: usize)
    ensures
        is_char_start_of(text.spec_bytes(), char_idx as int, r as int),
{
    let s = text.as_bytes();
    let n = s.len();
    let mut count: usize = 0;
    let mut i: usize = 0;
    while i < n
        invariant
            n == s@.len(),
            s@ == text.spec_bytes(),
            i <= n,
            count == char_count(s@.subrange(0, i as int)),
            count <= char_idx,
        decreases n - i,
    {
        proof {
            lemma_count_push(s@, i as int, Metric::Chars);
            lemma_count_le_len(s@.subrange(0, i as int), Metric::Chars);
        }
        if metric_at_byte(s, i, Metric::Chars) {
            if count == char_idx {
                proof {
                    lemma_count_prefix_le(s@, i as int + 1, Metric::Chars);
                }
                return i;
            }
            count = count + 1;
        }
        i = i + 1;
    }
    assert(s@.subrange(0, n as int) =~= s@);
    n
}

/// Converts a byte index to a line index: the number of line breaks that
/// end before it.  A byte inside a multi-byte char counts from the start of
/// that char; any past-the-end index maps to the last line.
pub fn byte_to_line_idx(text: &str, byte_idx: usize) -> (r: usize)
    ensures
        r == byte_to_line_spec(text.spec_bytes(), byte_idx as int),
{
    let s = text.as_bytes();
    let n = s.len();
    let mut b: usize = if byte_idx < n {
        byte_idx
    } else {
        n
    };
    proof {
        encode_utf8_valid_utf8(text@);
        is_char_boundary_start_end_of_seq(s@);
    }
    while !text.is_char_boundary(b)
        invariant
            b <= n,
            n == s@.len(),
            s@ == text.spec_bytes(),
            is_char_boundary(s@, 0),
            floor_boundary(s@, b as int) == floor_boundary(
                s@,
                if byte_idx < n {
                    byte_idx as int
                } else {
                    n as int
                },
            ),
        decreases b,
    {
        b = b - 1;
    }
    let nl = count_prefix(s, b, Metric::Lines(LineType::Unicode));
    if 0 < b && b < n && s[b - 1] == 0x0D && s[b] == 0x0A {
        proof {
            lemma_count_push(s@, b - 1, Metric::Lines(LineType::Unicode));
        }
        nl - 1
    } else {
        nl
    }
}

/// The first position after `from` at which one more line break is complete,
/// if any.
fn next_break_end(s: &[u8], from: usize) -> (r: Option<usize>)
    requires
        from <= s@.len(),
    ensures
        match r {
            Some(p) => from < p <= s@.len() && breaks_before(s@, p as int) == breaks_before(
                s@,
                from as int,
            ) + 1 && breaks_before(s@, p - 1) == breaks_before(s@, from as int),
            None => breaks_before(s@, s@.len() as int) == breaks_before(s@, from as int),
        },
{
    let n = s.len();
    let mut i: usize = from;
    let mut count = count_prefix(s, from, Metric::Lines(LineType::Unicode));
    proof {
        lemma_count_le_len(s@.subrange(0, from as int), Metric::Lines(LineType::Unicode));
    }
    let base: usize = if 0 < from && from < n && s[from - 1] == 0x0D && s[from] == 0x0A {
        proof {
            lemma_count_push(s@, from - 1, Metric::Lines(LineType::Unicode));
        }
        count - 1
    } else {
        count
    };
    while i < n
        invariant
            n == s@.len(),
            from <= i <= n,
            count == line_break_count(s@.subrange(0, i as int), LineType::Unicode),
            count <= i,
            breaks_before(s@, i as int) == base,
            base == breaks_before(s@, from as int),
        decreases n - i,
    {
        proof {
            lemma_count_push(s@, i as int, Metric::Lines(LineType::Unicode));
            lemma_breaks_before_step(s@, i as int);
        }
        if metric_at_byte(s, i, Metric::Lines(LineType::Unicode)) {
            count = count + 1;
        }
        i = i + 1;
        let mid = i < n && s[i - 1] == 0x0D && s[i] == 0x0A;
        if !mid && count > base {
            return Some(i);
        }
    }
    None
}

/// Converts a line index to the byte index where that line starts: right
/// after its line break, or 0 for the first line.  Any past-the-end index
/// maps to the byte length.
pub fn line_to_byte_idx(text: &str, line_idx: usize) -> (r: usize)
    ensures
        is_line_start_of(text.spec_bytes(), line_idx as int, r as int),
{
    let s = text.as_bytes();
    let n = s.len();
    proof {
        assert(s@.subrange(0, n as int) =~= s@);
    }
    if line_idx == 0 {
        return 0;
    }
    let mut pos: usize = 0;
    let mut j: usize = 0;
    assert(s@.subrange(0, 0) =~= Seq::<u8>::empty());
    while j < line_idx
        invariant
            n == s@.len(),
            s@ == text.spec_bytes(),
            line_idx > 0,
            j <= line_idx,
            pos <= n,
            breaks_before(s@, pos as int) == j,
            j > 0 ==> pos > 0 && breaks_before(s@, pos - 1) < j,
            breaks_before(s@, n as int) == line_break_count(s@, LineType::Unicode),
        decreases line_idx - j,
    {
        match next_break_end(s, pos) {
            Some(p) => {
                pos = p;
                j = j + 1;
            },
            None => {
                return n;
            },
        }
    }
    proof {
        lemma_breaks_before_mono(s@, pos as int, n as int);
    }
    pos
}

/// Converts a char index to a line index.
pub fn char_to_line_idx(text: &str, char_idx: usize) -> (r: usize)
    ensures
        exists|b: int|
            is_char_start_of(text.spec_bytes(), char_idx as int, b) && r == byte_to_line_spec(
                text.spec_bytes(),
                b,
            ),
{
    byte_to_line_idx(text, char_to_byte_idx(text, char_idx))
}

/// Converts a line index to the char index where that line starts.
pub fn line_to_char_idx(text: &str, line_idx: usize) -> (r: usize)
    ensures
        exists|b: int|
            is_line_start_of(text.spec_bytes(), line_idx as int, b) && r == byte_to_char_spec(
                text.spec_bytes(),
                b,
            ),
{
    byte_to_char_idx(text, line_to_byte_idx(text, line_idx))
}

/// Walks the line breaks of a text, yielding the byte index right after each.
pub struct LineBreakIter<'a> {
    text: &'a [u8],
    byte_idx: usize,
}

impl<'a> LineBreakIter<'a> {
    pub closed spec fn bytes(&self) -> Seq<u8> {
        self.text@
    }

    pub closed spec fn position(&self) -> int {
        self.byte_idx as int
    }

    pub closed spec fn wf(&self) -> bool {
        self.byte_idx <= self.text@.len()
    }

    /// Starts before the first byte of `text`.
    pub fn new(text: &'a str) -> (r: LineBreakIter<'a>)
        ensures
            r.wf(),
            r.bytes() == text.spec_bytes(),
            r.position() == 0,
    {
        LineBreakIter { text: text.as_bytes(), byte_idx: 0 }
    }

    /// The byte index right after the next line break, if there is one.
    pub fn next(&mut self) -> (r: Option<usize>)
        requires
            old(self).wf(),
        ensures
            final(self).wf(),
            final(self).bytes() == old(self).bytes(),
            match r {
                Some(p) => {
                    &&& old(self).position() < p <= old(self).bytes().len()
                    &&& breaks_before(old(self).bytes(), p as int) == breaks_before(
                        old(self).bytes(),
                        old(self).position(),
                    ) + 1
                    &&& breaks_before(old(self).bytes(), p - 1) == breaks_before(
                        old(self).bytes(),
                        old(self).position(),
                    )
                    &&& final(self).position() == p
                },
                None => {
                    &&& breaks_before(old(self).bytes(), old(self).bytes().len() as int)
                        == breaks_before(old(self).bytes(), old(self).position())
                    &&& final(self).position() == old(self).position()
                },
            },
    {
        let r = next_break_end(self.text, self.byte_idx);
        match r {
            Some(p) => {
                self.byte_idx = p;
            },
            None => {},
        }
        r
    }

    /// The number of line breaks left to walk.
    pub fn count(self) -> (r: usize)
        requires
            self.wf(),
        ensures
            r == breaks_before(self.bytes(), self.bytes().len() as int) - breaks_before(
                self.bytes(),
                self.position(),
            ),
    {
        let mut it = self;
        let mut c: usize = 0;
        let ghost start = breaks_before(self.bytes(), self.position());
        loop
            invariant
                it.wf(),
                it.bytes() == self.bytes(),
                start == breaks_before(self.bytes(), self.position()),
                breaks_before(it.bytes(), it.position()) == start + c,
                c <= it.position(),
            decreases it.bytes().len() - it.position(),
        {
            match it.next() {
                Some(_) => {
                    c = c + 1;
                },
                None => {
                    return c;
                },
            }
        }
    }
}

/// Converting a char index to a byte index and back gives the char index
/// again, for every char index up to the char count.
pub proof fn law_char_byte_round_trip(s: Seq<u8>, c: int, b: int)
    requires
        0 <= c <= char_count(s),
        is_char_start_of(s, c, b),
    ensures
        byte_to_char_spec(s, b) == c,
{
    if c < char_count(s) {
        lemma_count_push(s, b, Metric::Chars);
    }
}

/// The end of the char that starts at a char boundary is a char boundary.
pub proof fn lemma_next_boundary(s: Seq<u8>, q: int)
    requires
        valid_utf8(s),
        0 <= q < s.len(),
        is_char_boundary(s, q),
    ensures
        is_char_boundary(s, q + length_of_first_scalar(s.subrange(q, s.len() as int))),
    decreases s.len(),
{
    let k0 = length_of_first_scalar(s);
    let t = pop_first_scalar(s);
    if q == 0 {
        assert(s.subrange(0, s.len() as int) =~= s);
        assert(is_char_boundary(t, 0));
    } else {
        let q2 = q - k0;
        assert(is_char_boundary(t, q2));
        assert(0 <= q2 <= t.len());
        assert(t.len() == s.len() - k0);
        assert(t.subrange(q2, t.len() as int) =~= s.subrange(q, s.len() as int));
        lemma_next_boundary(t, q2);
    }
}

/// Where a line starts, a char starts.
pub proof fn lemma_line_start_is_boundary(s: Seq<u8>, r: int)
    requires
        valid_utf8(s),
        0 < r <= s.len(),
        breaks_before(s, r - 1) < breaks_before(s, r),
    ensures
        is_char_boundary(s, r),
{
    lemma_count_push(s, r - 1, Metric::Lines(LineType::Unicode));
    assert(s.subrange(0, r - 1 + 1) == s.subrange(0, r));
    let b = s[r - 1];
    if b <= 0x0D {
        is_char_boundary_iff_not_is_continuation_byte(s, r - 1);
        lemma_next_boundary(s, r - 1);
        assert(s.subrange(r - 1, s.len() as int)[0] == b);
    } else if b == 0x85 {
        is_char_boundary_iff_not_is_continuation_byte(s, r - 2);
        lemma_next_boundary(s, r - 2);
        assert(s.subrange(r - 2, s.len() as int)[0] == 0xC2);
    } else {
        is_char_boundary_iff_not_is_continuation_byte(s, r - 3);
        lemma_next_boundary(s, r - 3);
        assert(s.subrange(r - 3, s.len() as int)[0] == 0xE2);
    }
}

/// Converting a line index to a byte index and back gives the line index
/// again, for every line index up to the number of line breaks.
pub proof fn law_line_byte_round_trip(s: Seq<u8>, l: int, b: int)
    requires
        valid_utf8(s),
        0 <= l <= line_break_count(s, LineType::Unicode),
        is_line_start_of(s, l, b),
    ensures
        byte_to_line_spec(s, b) == l,
{
    if l == 0 {
        assert(s.subrange(0, 0) =~= Seq::<u8>::empty());
    } else {
        lemma_line_start_is_boundary(s, b);
    }
}

/// The number of UTF-16 code units before the char that byte `i` belongs
/// to; past the end, the UTF-16 length.
pub open spec fn byte_to_utf16_spec(s: Seq<u8>, i: int) -> int {
    utf16_count(s.subrange(0, floor_boundary(s, if i < s.len() { i } else { s.len() as int })))
        as int
}

/// `r` is the start of the char holding UTF-16 code unit `u` (the char of
/// both halves of a surrogate pair), or the end when `u` is past the end.
pub open spec fn is_utf16_start_of(s: Seq<u8>, u: int, r: int) -> bool {
    if u >= utf16_count(s) {
        r == s.len()
    } else {
        &&& 0 <= r < s.len()
        &&& !is_cont(s[r])
        &&& utf16_count(s.subrange(0, r)) <= u
        &&& forall|j: int|
            r < j < s.len() && !is_cont(#[trigger] s[j]) ==> utf16_count(s.subrange(0, j)) > u
    }
}

/// Converts a byte index to a UTF-16 code unit index.  A byte inside a
/// multi-byte char counts from the start of that char; any past-the-end
/// index maps to the UTF-16 length.
pub fn byte_to_utf16_idx(text: &str, byte_idx: usize) -> (r: usize)
    ensures
        r == byte_to_utf16_spec(text.spec_bytes(), byte_idx as int),
{
    let s = text.as_bytes();
    let n = s.len();
    let mut b: usize = if byte_idx < n {
        byte_idx
    } else {
        n
    };
    proof {
        encode_utf8_valid_utf8(text@);
        is_char_boundary_start_end_of_seq(s@);
    }
    while !text.is_char_boundary(b)
        invariant
            b <= n,
            n == s@.len(),
            s@ == text.spec_bytes(),
            is_char_boundary(s@, 0),
            floor_boundary(s@, b as int) == floor_boundary(
                s@,
                if byte_idx < n {
                    byte_idx as int
                } else {
                    n as int
                },
            ),
        decreases b,
    {
        b = b - 1;
    }
    count_prefix(s, b, Metric::Utf16)
}

/// Converts a UTF-16 code unit index to the byte index of the char holding
/// it.  Any past-the-end index maps to the byte length.
pub fn utf16_to_byte_idx(text: &str, utf16_idx: usize) -> (r: usize)
    ensures
        is_utf16_start_of(text.spec_bytes(), utf16_idx as int, r as int),
{
    let s = text.as_bytes();
    let n = s.len();
    let mut count: usize = 0;
    let mut last: usize = 0;
    let mut i: usize = 0;
    proof {
        encode_utf8_valid_utf8(text@);
        lemma_valid_starts_clean(s@);
        assert(s@.subrange(0, 0) =~= Seq::<u8>::empty());
    }
    while i < n
        invariant
            n == s@.len(),
            s@ == text.spec_bytes(),
            i <= n,
            last <= i,
            count == utf16_count(s@.subrange(0, i as int)),
            count <= utf16_idx,
            n > 0 ==> last < n && !is_cont(s@[last as int]),
            utf16_count(s@.subrange(0, last as int)) <= utf16_idx,
            forall|j: int|
                last < j < i && !is_cont(#[trigger] s@[j]) ==> utf16_count(s@.subrange(0, j))
                    > utf16_idx,
            i > 0 ==> count >= 1,
        decreases n - i,
    {
        proof {
            lemma_count_push(s@, i as int, Metric::Utf16);
            lemma_count_le_len(s@.subrange(0, i as int), Metric::Utf16);
        }
        if !(0x80 <= s[i] && s[i] <= 0xBF) {
            last = i;
        }
        if metric_at_byte(s, i, Metric::Utf16) {
            if count == utf16_idx {
                proof {
                    lemma_count_prefix_le(s@, i + 1, Metric::Utf16);
                    assert forall|j: int| last < j < n && !is_cont(#[trigger] s@[j]) implies utf16_count(
                        s@.subrange(0, j),
                    ) > utf16_idx by {
                        if j > i {
                            lemma_count_prefix_le(s@.subrange(0, j), i + 1, Metric::Utf16);
                            assert(s@.subrange(0, j).subrange(0, i + 1) =~= s@.subrange(0, i + 1));
                        }
                    }
                }
                return last;
            }
            count = count + 1;
        }
        i = i + 1;
    }
    proof {
        assert(s@.subrange(0, n as int) =~= s@);
    }
    n
}

/// A char boundary converted to a UTF-16 index and back is the same char
/// boundary.
pub proof fn law_utf16_byte_round_trip(s: Seq<u8>, b: int, r: int)
    requires
        valid_utf8(s),
        0 <= b <= s.len(),
        is_char_boundary(s, b),
        is_utf16_start_of(s, utf16_count(s.subrange(0, b)) as int, r),
    ensures
        r == b,
{
    let u = utf16_count(s.subrange(0, b));
    if b == s.len() {
        assert(s.subrange(0, b) =~= s);
    } else {
        is_char_boundary_iff_not_is_continuation_byte(s, b);
        lemma_count_push(s, b, Metric::Utf16);
        lemma_count_prefix_le(s, b + 1, Metric::Utf16);
        assert(u < utf16_count(s));
        if r < b {
            assert(!is_cont(s[b]));
        } else if r > b {
            lemma_count_prefix_le(s.subrange(0, r), b + 1, Metric::Utf16);
            assert(s.subrange(0, r).subrange(0, b + 1) =~= s.subrange(0, b + 1));
        }
    }
}

/// Byte `i` of the word `w`, counting from the least significant.
pub open spec fn byte_at(w: u64, i: u64) -> u64 {
    (w >> (8 * i)) & 0xff
}

/// Word-at-a-time byte operations, on a machine word treated as a vector
/// of bytes.
pub trait ByteChunk: Sized {
    /// A word with every byte equal to `n`.
    fn splat(n: u8) -> Self;

    /// A word with byte `i` set to 1 where byte `i` of `self` equals `byte`,
    /// and to 0 elsewhere.
    fn cmp_eq_byte(&self, byte: u8) -> Self;

    /// Whether some byte of `self` is less than `n`.
    fn has_bytes_less_than(&self, n: u8) -> bool;

    /// Whether every byte is 0.
    fn is_zero(&self) -> bool;

    /// Moves every byte `n` places towards the start of the text.
    fn shift_back_lex(&self, n: usize) -> Self
        requires
            n < 8,
    ;

    /// Shifts the whole word right by `n` bits.
    fn shr(&self, n: usize) -> Self
        requires
            n < 64,
    ;

    /// A word with byte `i` set to 1 where `a < ` byte `i` of `self` `< b`,
    /// and to 0 elsewhere.
    fn bytes_between(&self, a: u8, b: u8) -> Self
        requires
            a < b <= 128,
    ;

    /// Bitwise and.
    fn bitand(&self, other: Self) -> Self;

    /// Sum of the words, bytes added lane by lane when no lane overflows.
    fn add(&self, other: Self) -> Self;

    /// Difference of the words, bytes subtracted lane by lane when no lane
    /// underflows.
    fn sub(&self, other: Self) -> Self;

    /// Adds one to the `n`-th byte counted back from the end of the text.
    fn inc_nth_from_end_lex_byte(&self, n: usize) -> Self
        requires
            n < 8,
    ;

    /// Subtracts one from the last byte of the text.
    fn dec_last_lex_byte(&self) -> Self;

    /// The sum of all bytes.
    fn sum_bytes(&self) -> usize;
}

/// The machine word is 64 bits wide.
pub open spec fn word_is_64() -> bool {
    usize::MAX as int == u64::MAX as int
}

/// The sum of the eight bytes of `w`.
pub open spec fn byte_sum(w: u64) -> int {
    byte_at(w, 0) + byte_at(w, 1) + byte_at(w, 2) + byte_at(w, 3) + byte_at(w, 4) + byte_at(w, 5)
        + byte_at(w, 6) + byte_at(w, 7)
}

impl ByteChunk for usize {
    fn splat(n: u8) -> (r: usize)
        ensures
            usize::MAX as int == u64::MAX as int ==> forall|i: u64|
                i < 8 ==> #[trigger] byte_at(r as u64, i) == n as u64,
    {
        let nn: u64 = n as u64;
        assert(0x0101010101010101u64 * nn <= u64::MAX) by (nonlinear_arith)
            requires
                nn < 256,
        ;
        let r: u64 = 0x0101010101010101u64 * nn;
        proof {
            assert(forall|i: u64| i < 8 ==> #[trigger] ((r >> (8 * i)) & 0xff) == nn) by (bit_vector)
                requires
                    nn < 256,
                    r == (0x0101010101010101u64 * nn) as u64,
            ;
        }
        r as usize
    }

    fn cmp_eq_byte(&self, byte: u8) -> (r: usize)
        ensures
            usize::MAX as int == u64::MAX as int ==> forall|i: u64|
                i < 8 ==> #[trigger] byte_at(r as u64, i) == if byte_at(*self as u64, i) == byte as u64 {
                    1u64
                } else {
                    0u64
                },
    {
        let w: u64 = *self as u64;
        let b: u64 = byte as u64;
        assert(0x0101010101010101u64 * b <= u64::MAX) by (nonlinear_arith)
            requires
                b < 256,
        ;
        let pattern: u64 = b * 0x0101010101010101u64;
        let word: u64 = w ^ pattern;
        let low: u64 = word & 0x7f7f7f7f7f7f7f7fu64;
        assert(low <= 0x7f7f7f7f7f7f7f7fu64) by (bit_vector)
            requires
                low == word & 0x7f7f7f7f7f7f7f7fu64,
        ;
        let sum: u64 = low + 0x7f7f7f7f7f7f7f7fu64;
        let r: u64 = (!(sum | word) & 0x8080808080808080u64) >> 7;
        proof {
            assert(forall|i: u64|
                i < 8 ==> #[trigger] ((r >> (8 * i)) & 0xff) == if ((w >> (8 * i)) & 0xff) == b {
                    1u64
                } else {
                    0u64
                }) by (bit_vector)
                requires
                    b < 256,
                    pattern == (b * 0x0101010101010101u64) as u64,
                    word == w ^ pattern,
                    low == word & 0x7f7f7f7f7f7f7f7fu64,
                    sum == (low + 0x7f7f7f7f7f7f7f7fu64) as u64,
                    low <= 0x7f7f7f7f7f7f7f7fu64,
                    r == (!(sum | word) & 0x8080808080808080u64) >> 7,
            ;
        }
        r as usize
    }

    fn has_bytes_less_than(&self, n: u8) -> (r: bool)
        ensures
            n <= 128 ==> (r <==> exists|i: u64| i < 8 && #[trigger] byte_at(*self as u64, i) < n as u64),
    {
        let w: u64 = *self as u64;
        let m: u64 = n as u64;
        assert(0x0101010101010101u64 * m <= u64::MAX) by (nonlinear_arith)
            requires
                m < 256,
        ;
        let pattern: u64 = 0x0101010101010101u64 * m;
        let d: u64 = w.wrapping_sub(pattern);
        let r = (d & !w & 0x8080808080808080u64) != 0;
        proof {
            let np = !pattern;
            assert(np == 0xffff_ffff_ffff_ffffu64 - pattern) by (bit_vector)
                requires
                    np == !pattern,
            ;
            if w < pattern {
                assert(d == (w + np + 1) as u64);
            }
            if m <= 128 {
                assert(r <==> (((w >> 0u64) & 0xff) < m || ((w >> 8u64) & 0xff) < m || ((w >> 16u64)
                    & 0xff) < m || ((w >> 24u64) & 0xff) < m || ((w >> 32u64) & 0xff) < m || ((w
                    >> 40u64) & 0xff) < m || ((w >> 48u64) & 0xff) < m || ((w >> 56u64) & 0xff) < m))
                    by (bit_vector)
                    requires
                        m <= 128,
                        pattern == (0x0101010101010101u64 * m) as u64,
                        np == !pattern,
                        w >= pattern ==> d == (w - pattern) as u64,
                        w < pattern ==> d == (w + np + 1) as u64,
                        r == ((d & !w & 0x8080808080808080u64) != 0),
                ;
                if r {
                    if byte_at(w, 0) < m {
                        assert(byte_at(w, 0) < m);
                    } else if byte_at(w, 1) < m {
                        assert(byte_at(w, 1) < m);
                    } else if byte_at(w, 2) < m {
                        assert(byte_at(w, 2) < m);
                    } else if byte_at(w, 3) < m {
                        assert(byte_at(w, 3) < m);
                    } else if byte_at(w, 4) < m {
                        assert(byte_at(w, 4) < m);
                    } else if byte_at(w, 5) < m {
                        assert(byte_at(w, 5) < m);
                    } else if byte_at(w, 6) < m {
                        assert(byte_at(w, 6) < m);
                    } else {
                        assert(byte_at(w, 7) < m);
                    }
                } else {
                    assert forall|i: u64| i < 8 implies !(#[trigger] byte_at(w, i) < m) by {
                        assert(i == 0 || i == 1 || i == 2 || i == 3 || i == 4 || i == 5 || i == 6 || i == 7);
                    }
                }
            }
        }
        r
    }
    fn is_zero(&self) -> (r: bool)
        ensures
            r == (*self == 0),
    {
        *self == 0
    }

    fn shift_back_lex(&self, n: usize) -> (r: usize)
        ensures
            word_is_64() ==> forall|i: u64|
                i < 8 ==> #[trigger] byte_at(r as u64, i) == if i + n < 8 {
                    byte_at(*self as u64, (i + n) as u64)
                } else {
                    0
                },
    {
        let w: u64 = *self as u64;
        let k: u64 = n as u64;
        let r: u64 = w >> (k * 8);
        proof {
            assert(forall|i: u64|
                i < 8 ==> #[trigger] ((r >> (8 * i)) & 0xff) == if i + k < 8 {
                    (w >> (8 * (i + k))) & 0xff
                } else {
                    0
                }) by (bit_vector)
                requires
                    k < 8,
                    r == w >> (k * 8),
            ;
        }
        r as usize
    }

    fn shr(&self, n: usize) -> (r: usize)
        ensures
            word_is_64() ==> r as u64 == (*self as u64) >> (n as u64),
    {
        ((*self as u64) >> (n as u64)) as usize
    }

    fn bytes_between(&self, a: u8, b: u8) -> (r: usize)
        ensures
            word_is_64() ==> forall|i: u64|
                i < 8 ==> #[trigger] byte_at(r as u64, i) == if a < byte_at(*self as u64, i) < b {
                    1u64
                } else {
                    0u64
                },
    {
        let w: u64 = *self as u64;
        let lo: u64 = a as u64;
        let hi: u64 = b as u64;
        let tmp: u64 = w & 0x7f7f7f7f7f7f7f7fu64;
        assert(tmp <= 0x7f7f7f7f7f7f7f7fu64) by (bit_vector)
            requires
                tmp == w & 0x7f7f7f7f7f7f7f7fu64,
        ;
        assert(0x0101010101010101u64 * (127 + hi) <= u64::MAX) by (nonlinear_arith)
            requires
                hi <= 128,
        ;
        assert(0x0101010101010101u64 * (127 - lo) <= u64::MAX) by (nonlinear_arith)
            requires
                lo < 128,
        ;
        let top: u64 = 0x0101010101010101u64 * (127 + hi);
        let bottom: u64 = 0x0101010101010101u64 * (127 - lo);
        assert(top >= tmp && tmp + bottom <= u64::MAX) by (bit_vector)
            requires
                tmp <= 0x7f7f7f7f7f7f7f7fu64,
                tmp == w & 0x7f7f7f7f7f7f7f7fu64,
                hi <= 128,
                lo < 128,
                top == (0x0101010101010101u64 * (127 + hi)) as u64,
                bottom == (0x0101010101010101u64 * (127 - lo)) as u64,
        ;
        let r: u64 = ((top - tmp) & !w & (tmp + bottom) & 0x8080808080808080u64) >> 7;
        proof {
            assert(forall|i: u64|
                i < 8 ==> #[trigger] ((r >> (8 * i)) & 0xff) == if lo < ((w >> (8 * i)) & 0xff)
                    < hi {
                    1u64
                } else {
                    0u64
                }) by (bit_vector)
                requires
                    lo < hi <= 128,
                    tmp == w & 0x7f7f7f7f7f7f7f7fu64,
                    top == (0x0101010101010101u64 * (127 + hi)) as u64,
                    bottom == (0x0101010101010101u64 * (127 - lo)) as u64,
                    top >= tmp,
                    tmp + bottom <= 0xffff_ffff_ffff_ffffu64,
                    r == (((top - tmp) as u64) & !w & ((tmp + bottom) as u64) & 0x8080808080808080u64)
                        >> 7,
            ;
        }
        r as usize
    }

    fn bitand(&self, other: usize) -> (r: usize)
        ensures
            r == *self & other,
    {
        *self & other
    }

    fn add(&self, other: usize) -> (r: usize)
        ensures
            *self + other <= usize::MAX ==> r == *self + other,
    {
        self.wrapping_add(other)
    }

    fn sub(&self, other: usize) -> (r: usize)
        ensures
            *self >= other ==> r == *self - other,
    {
        self.wrapping_sub(other)
    }

    fn inc_nth_from_end_lex_byte(&self, n: usize) -> (r: usize)
        ensures
            word_is_64() && byte_at(*self as u64, (7 - n) as u64) < 255 ==> forall|i: u64|
                i < 8 ==> #[trigger] byte_at(r as u64, i) == if i == 7 - n {
                    (byte_at(*self as u64, i) + 1) as u64
                } else {
                    byte_at(*self as u64, i)
                },
    {
        let w: u64 = *self as u64;
        let k: u64 = (7 - n) as u64;
        let unit: u64 = 1u64 << (k * 8);
        let r: u64 = w.wrapping_add(unit);
        proof {
            if ((w >> (8 * k)) & 0xff) < 255 {
                assert(w + unit <= u64::MAX) by (bit_vector)
                    requires
                        k < 8,
                        unit == 1u64 << (k * 8),
                        ((w >> (8 * k)) & 0xff) < 255,
                ;
                assert(r == (w + unit) as u64);
                assert(forall|i: u64|
                    i < 8 ==> #[trigger] ((r >> (8 * i)) & 0xff) == if i == k {
                        (((w >> (8 * i)) & 0xff) + 1) as u64
                    } else {
                        (w >> (8 * i)) & 0xff
                    }) by (bit_vector)
                    requires
                        k < 8,
                        unit == 1u64 << (k * 8),
                        ((w >> (8 * k)) & 0xff) < 255,
                        r == (w + unit) as u64,
                        w + unit <= 0xffff_ffff_ffff_ffffu64,
                ;
            }
        }
        r as usize
    }

    fn dec_last_lex_byte(&self) -> (r: usize)
        ensures
            word_is_64() && byte_at(*self as u64, 7) > 0 ==> forall|i: u64|
                i < 8 ==> #[trigger] byte_at(r as u64, i) == if i == 7 {
                    (byte_at(*self as u64, i) - 1) as u64
                } else {
                    byte_at(*self as u64, i)
                },
    {
        let w: u64 = *self as u64;
        let r: u64 = w.wrapping_sub(0x0100_0000_0000_0000u64);
        proof {
            if ((w >> 56u64) & 0xff) > 0 {
                assert(w >= 0x0100_0000_0000_0000u64) by (bit_vector)
                    requires
                        ((w >> 56u64) & 0xff) > 0,
                ;
                assert(r == (w - 0x0100_0000_0000_0000u64) as u64);
                assert(forall|i: u64|
                    i < 8 ==> #[trigger] ((r >> (8 * i)) & 0xff) == if i == 7 {
                        (((w >> (8 * i)) & 0xff) - 1) as u64
                    } else {
                        (w >> (8 * i)) & 0xff
                    }) by (bit_vector)
                    requires
                        ((w >> 56u64) & 0xff) > 0,
                        w >= 0x0100_0000_0000_0000u64,
                        r == (w - 0x0100_0000_0000_0000u64) as u64,
                ;
            }
        }
        r as usize
    }

    fn sum_bytes(&self) -> (r: usize)
        ensures
            r == byte_sum(*self as u64),
    {
        let w: u64 = *self as u64;
        let mut r: u64 = 0;
        let mut i: u64 = 0;
        while i < 8
            invariant
                i <= 8,
                r <= 255 * i,
                r + (if i <= 0 { byte_at(w, 0) } else { 0 }) + (if i <= 1 { byte_at(w, 1) } else { 0 })
                    + (if i <= 2 { byte_at(w, 2) } else { 0 }) + (if i <= 3 { byte_at(w, 3) } else { 0 })
                    + (if i <= 4 { byte_at(w, 4) } else { 0 }) + (if i <= 5 { byte_at(w, 5) } else { 0 })
                    + (if i <= 6 { byte_at(w, 6) } else { 0 }) + (if i <= 7 { byte_at(w, 7) } else { 0 })
                    == byte_sum(w),
            decreases 8 - i,
        {
            let b: u64 = (w >> (8 * i)) & 0xff;
            assert(b <= 255) by (bit_vector)
                requires
                    b == (w >> (8 * i)) & 0xff,
            ;
            r = r + b;
            i = i + 1;
        }
        r as usize
    }
}

} // verus!
