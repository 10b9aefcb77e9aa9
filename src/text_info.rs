//! Per-chunk text summaries and the byte-level counting rules behind them.

use vstd::prelude::*;
use vstd::string::StringSliceAdditionalSpecFns;
use vstd::utf8::*;

verus! {

/// Which characters end a line.
#[derive(Clone, Copy, Debug, PartialEq, Eq, Structural)]
pub enum LineType {
    /// Only U+000A.
    LF,
    /// U+000A and U+000D, with CR+LF counted once.
    CRLF,
    /// LF, VT, FF, CR, NEL, LS and PS, with CR+LF counted once.
    Unicode,
}

/// A quantity counted over a byte sequence.
#[derive(Clone, Copy, Debug, PartialEq, Eq, Structural)]
pub enum Metric {
    Chars,
    Utf16,
    Lines(LineType),
}

pub open spec fn is_cont(b: u8) -> bool {
    is_continuation_byte(b)
}

/// The byte at `i` ends a line break of kind `lt`.  Only bytes at or before
/// `i` are looked at, so a break is counted at its last byte.
pub open spec fn break_at(s: Seq<u8>, i: int, lt: LineType) -> bool {
    let b = s[i];
    let lf_alone = b == 0x0A && !(i > 0 && s[i - 1] == 0x0D);
    match lt {
        LineType::LF => b == 0x0A,
        LineType::CRLF => b == 0x0D || lf_alone,
        LineType::Unicode => (0x0B <= b && b <= 0x0D) || lf_alone || (b == 0x85 && i > 0 && s[i
            - 1] == 0xC2) || ((b == 0xA8 || b == 0xA9) && i > 1 && s[i - 1] == 0x80 && s[i - 2]
            == 0xE2),
    }
}

/// Position `i` of `s` adds one to the metric `m`.
pub open spec fn metric_at(s: Seq<u8>, i: int, m: Metric) -> bool {
    match m {
        Metric::Chars => !is_cont(s[i]),
        Metric::Utf16 => !is_cont(s[i]) || (i > 0 && s[i - 1] >= 0xF0),
        Metric::Lines(lt) => break_at(s, i, lt),
    }
}

/// The metric `m` of the whole of `s`.
pub open spec fn metric_count(s: Seq<u8>, m: Metric) -> nat
    decreases s.len(),
{
    if s.len() == 0 {
        0
    } else {
        metric_count(s.drop_last(), m) + if metric_at(s, s.len() - 1, m) {
            1nat
        } else {
            0nat
        }
    }
}

pub open spec fn char_count(s: Seq<u8>) -> nat {
    metric_count(s, Metric::Chars)
}

pub open spec fn utf16_count(s: Seq<u8>) -> nat {
    metric_count(s, Metric::Utf16)
}

pub open spec fn line_break_count(s: Seq<u8>, lt: LineType) -> nat {
    metric_count(s, Metric::Lines(lt))
}

/// `s` is empty or does not start in the middle of a scalar.
pub open spec fn starts_clean(s: Seq<u8>) -> bool {
    s.len() == 0 || !is_cont(s[0])
}

/// Joining `a` and `b` glues a CR at the end of `a` to an LF at the start of `b`.
pub open spec fn crlf_seam(a: Seq<u8>, b: Seq<u8>) -> bool {
    a.len() > 0 && b.len() > 0 && a.last() == 0x0D && b[0] == 0x0A
}

/// Summary of a text: its length in each metric and its CR/LF edges.
#[derive(Clone, Copy, Debug, PartialEq, Eq, Structural)]
pub struct TextInfo {
    pub bytes: usize,
    pub chars: usize,
    pub utf16: usize,
    pub line_breaks_lf: usize,
    pub line_breaks_crlf: usize,
    pub line_breaks_unicode: usize,
    pub starts_with_lf: bool,
    pub ends_with_cr: bool,
}

/// The summary of the bytes `s`.
pub open spec fn info_of(s: Seq<u8>) -> TextInfo {
    TextInfo {
        bytes: s.len() as usize,
        chars: char_count(s) as usize,
        utf16: utf16_count(s) as usize,
        line_breaks_lf: line_break_count(s, LineType::LF) as usize,
        line_breaks_crlf: line_break_count(s, LineType::CRLF) as usize,
        line_breaks_unicode: line_break_count(s, LineType::Unicode) as usize,
        starts_with_lf: s.len() > 0 && s[0] == 0x0A,
        ends_with_cr: s.len() > 0 && s.last() == 0x0D,
    }
}


/// Each position adds at most one, so a count never exceeds the length.
pub proof fn lemma_count_le_len(s: Seq<u8>, m: Metric)
    ensures
        metric_count(s, m) <= s.len(),
    decreases s.len(),
{
    if s.len() > 0 {
        lemma_count_le_len(s.drop_last(), m);
    }
}

/// Every metric of `s` is at most its length.
pub proof fn lemma_all_counts_le_len(s: Seq<u8>)
    ensures
        char_count(s) <= s.len(),
        utf16_count(s) <= s.len(),
        line_break_count(s, LineType::LF) <= s.len(),
        line_break_count(s, LineType::CRLF) <= s.len(),
        line_break_count(s, LineType::Unicode) <= s.len(),
{
    lemma_count_le_len(s, Metric::Chars);
    lemma_count_le_len(s, Metric::Utf16);
    lemma_count_le_len(s, Metric::Lines(LineType::LF));
    lemma_count_le_len(s, Metric::Lines(LineType::CRLF));
    lemma_count_le_len(s, Metric::Lines(LineType::Unicode));
}

/// A count over a prefix is at most the count over the whole.
pub proof fn lemma_count_prefix_le(s: Seq<u8>, k: int, m: Metric)
    requires
        0 <= k <= s.len(),
    ensures
        metric_count(s.subrange(0, k), m) <= metric_count(s, m),
    decreases s.len(),
{
    if k < s.len() {
        assert(s.drop_last().subrange(0, k) =~= s.subrange(0, k));
        lemma_count_prefix_le(s.drop_last(), k, m);
    } else {
        assert(s.subrange(0, k) =~= s);
    }
}

/// Whether position `i` counts only depends on the bytes up to `i`.
pub proof fn lemma_metric_at_prefix(s: Seq<u8>, k: int, i: int, m: Metric)
    requires
        0 <= i < k <= s.len(),
    ensures
        metric_at(s.subrange(0, k), i, m) == metric_at(s, i, m),
{
}

/// The metric of `s` extended by one byte.
pub proof fn lemma_count_push(s: Seq<u8>, k: int, m: Metric)
    requires
        0 <= k < s.len(),
    ensures
        metric_count(s.subrange(0, k + 1), m) == metric_count(s.subrange(0, k), m) + if metric_at(
            s,
            k,
            m,
        ) {
            1nat
        } else {
            0nat
        },
{
    assert(s.subrange(0, k + 1).drop_last() =~= s.subrange(0, k));
    lemma_metric_at_prefix(s, k + 1, k, m);
}

pub open spec fn seam_correction(a: Seq<u8>, b: Seq<u8>, m: Metric) -> nat {
    match m {
        Metric::Lines(LineType::CRLF) | Metric::Lines(LineType::Unicode) => if crlf_seam(a, b) {
            1nat
        } else {
            0nat
        },
        _ => 0nat,
    }
}

/// Counting over a concatenation: the counts add up, less one where a CR
/// ending `a` and an LF starting `b` form one CRLF break.
pub proof fn lemma_count_concat(a: Seq<u8>, b: Seq<u8>, m: Metric)
    requires
        starts_clean(b),
    ensures
        metric_count(a + b, m) + seam_correction(a, b, m) == metric_count(a, m) + metric_count(
            b,
            m,
        ),
    decreases b.len(),
{
    if b.len() == 0 {
        assert(a + b =~= a);
    } else {
        let ab = a + b;
        assert(ab.drop_last() =~= a + b.drop_last());
        if b.len() > 1 {
            lemma_count_concat(a, b.drop_last(), m);
            assert(seam_correction(a, b.drop_last(), m) == seam_correction(a, b, m));
            assert(metric_at(ab, ab.len() - 1, m) == metric_at(b, b.len() - 1, m));
        } else {
            assert(a + b.drop_last() =~= a);
            assert(b.drop_last().len() == 0);
        }
    }
}

/// The summary of a text that fits in memory has every count bounded by its length.
pub proof fn lemma_info_bounded(s: Seq<u8>)
    requires
        s.len() <= usize::MAX,
    ensures
        info_of(s).bounded(),
{
    lemma_all_counts_le_len(s);
    if s.len() > 0 && s[0] == 0x0A {
        lemma_count_prefix_le(s, 1, Metric::Lines(LineType::CRLF));
        lemma_count_prefix_le(s, 1, Metric::Lines(LineType::Unicode));
        let p = s.subrange(0, 1);
        assert(p.drop_last().len() == 0);
        assert(p[0] == 0x0A);
        reveal_with_fuel(metric_count, 2);
        assert(metric_count(p, Metric::Lines(LineType::CRLF)) == 1);
        assert(metric_count(p, Metric::Lines(LineType::Unicode)) == 1);
    }
    if s.len() > 0 && s.last() == 0x0D {
        assert(metric_at(s, s.len() - 1, Metric::Lines(LineType::CRLF)));
        assert(metric_at(s, s.len() - 1, Metric::Lines(LineType::Unicode)));
    }
}

/// Valid UTF-8 never starts in the middle of a scalar.
pub proof fn lemma_valid_starts_clean(s: Seq<u8>)
    requires
        valid_utf8(s),
    ensures
        starts_clean(s),
{
    if s.len() > 0 {
        is_char_boundary_start_end_of_seq(s);
        is_char_boundary_iff_not_is_continuation_byte(s, 0);
    }
}

/// Summaries compose: the summary of `a ++ b` is the summary of `a` appended
/// with the summary of `b`.
pub proof fn lemma_info_append(a: Seq<u8>, b: Seq<u8>)
    requires
        valid_utf8(a),
        valid_utf8(b),
        a.len() + b.len() <= usize::MAX,
    ensures
        info_of(a).can_append(info_of(b)),
        info_of(a).append_spec(info_of(b)) == info_of(a + b),
{
    lemma_valid_starts_clean(b);
    lemma_info_bounded(a);
    lemma_info_bounded(b);
    lemma_info_bounded(a + b);
    lemma_count_concat(a, b, Metric::Chars);
    lemma_count_concat(a, b, Metric::Utf16);
    lemma_count_concat(a, b, Metric::Lines(LineType::LF));
    lemma_count_concat(a, b, Metric::Lines(LineType::CRLF));
    lemma_count_concat(a, b, Metric::Lines(LineType::Unicode));
    let ab = a + b;
    lemma_all_counts_le_len(a);
    lemma_all_counts_le_len(b);
    if a.len() == 0 {
        assert(ab =~= b);
    }
    if b.len() == 0 {
        assert(ab =~= a);
    }
    if a.len() > 0 {
        assert(ab[0] == a[0]);
    }
    if b.len() > 0 {
        assert(ab.last() == b.last());
    }
    let x = info_of(a).append_spec(info_of(b));
    let y = info_of(a + b);
    assert(x.bytes == y.bytes);
    assert(x.chars == y.chars);
    assert(x.utf16 == y.utf16);
    assert(x.line_breaks_lf == y.line_breaks_lf);
    assert(x.line_breaks_crlf == y.line_breaks_crlf);
    assert(x.line_breaks_unicode == y.line_breaks_unicode);
    assert(x.starts_with_lf == y.starts_with_lf);
    assert(x.ends_with_cr == y.ends_with_cr);
}

/// Whether position `i` of `s` adds one to the metric `m`.
pub fn metric_at_byte(s: &[u8], i: usize, m: Metric) -> (r: bool)
    requires
        i < s@.len(),
    ensures
        r == metric_at(s@, i as int, m),
{
    let b = s[i];
    match m {
        Metric::Chars => !(0x80 <= b && b <= 0xBF),
        Metric::Utf16 => !(0x80 <= b && b <= 0xBF) || (i > 0 && s[i - 1] >= 0xF0),
        Metric::Lines(lt) => {
            let lf_alone = b == 0x0A && !(i > 0 && s[i - 1] == 0x0D);
            match lt {
                LineType::LF => b == 0x0A,
                LineType::CRLF => b == 0x0D || lf_alone,
                LineType::Unicode => (0x0B <= b && b <= 0x0D) || lf_alone || (b == 0x85 && i > 0
                    && s[i - 1] == 0xC2) || ((b == 0xA8 || b == 0xA9) && i > 1 && s[i - 1] == 0x80
                    && s[i - 2] == 0xE2),
            }
        },
    }
}

/// Appending summaries is associative on the summaries of texts.
pub proof fn law_append_associative(a: Seq<u8>, b: Seq<u8>, c: Seq<u8>)
    requires
        valid_utf8(a),
        valid_utf8(b),
        valid_utf8(c),
        a.len() + b.len() + c.len() <= usize::MAX,
    ensures
        info_of(a).append_spec(info_of(b)).append_spec(info_of(c)) == info_of(a).append_spec(
            info_of(b).append_spec(info_of(c)),
        ),
{
    valid_utf8_concat(a, b);
    valid_utf8_concat(b, c);
    lemma_info_append(a, b);
    lemma_info_append(a + b, c);
    lemma_info_append(b, c);
    lemma_info_append(a, b + c);
    assert(a + b + c =~= a + (b + c));
}

impl TextInfo {
    /// Every count is at most the byte count.
    pub open spec fn bounded(self) -> bool {
        &&& self.chars <= self.bytes
        &&& self.utf16 <= self.bytes
        &&& self.line_breaks_lf <= self.bytes
        &&& self.line_breaks_crlf <= self.bytes
        &&& self.line_breaks_unicode <= self.bytes
        &&& (self.starts_with_lf ==> self.line_breaks_crlf >= 1 && self.line_breaks_unicode >= 1)
        &&& (self.ends_with_cr ==> self.line_breaks_crlf >= 1 && self.line_breaks_unicode >= 1)
        &&& (self.bytes == 0 ==> !self.starts_with_lf && !self.ends_with_cr)
    }

    /// The two summaries describe texts that can be joined without overflow.
    pub open spec fn can_append(self, other: TextInfo) -> bool {
        self.bounded() && other.bounded() && self.bytes + other.bytes <= usize::MAX
    }

    pub open spec fn line_breaks_spec(self, lt: LineType) -> usize {
        match lt {
            LineType::LF => self.line_breaks_lf,
            LineType::CRLF => self.line_breaks_crlf,
            LineType::Unicode => self.line_breaks_unicode,
        }
    }

    /// The summary of the concatenation of the two described texts.
    pub open spec fn append_spec(self, other: TextInfo) -> TextInfo {
        let seam: int = if self.ends_with_cr && other.starts_with_lf {
            1
        } else {
            0
        };
        TextInfo {
            bytes: (self.bytes + other.bytes) as usize,
            chars: (self.chars + other.chars) as usize,
            utf16: (self.utf16 + other.utf16) as usize,
            line_breaks_lf: (self.line_breaks_lf + other.line_breaks_lf) as usize,
            line_breaks_crlf: (self.line_breaks_crlf + other.line_breaks_crlf - seam) as usize,
            line_breaks_unicode: (self.line_breaks_unicode + other.line_breaks_unicode
                - seam) as usize,
            starts_with_lf: if self.bytes == 0 {
                other.starts_with_lf
            } else {
                self.starts_with_lf
            },
            ends_with_cr: if other.bytes == 0 {
                self.ends_with_cr
            } else {
                other.ends_with_cr
            },
        }
    }

    /// The summary of the empty text.
    pub fn new() -> (r: TextInfo)
        ensures
            r == info_of(Seq::<u8>::empty()),
    {
        TextInfo {
            bytes: 0,
            chars: 0,
            utf16: 0,
            line_breaks_lf: 0,
            line_breaks_crlf: 0,
            line_breaks_unicode: 0,
            starts_with_lf: false,
            ends_with_cr: false,
        }
    }

    /// Computes the summary of `text` in one scan.
    pub fn from_str(text: &str) -> (r: TextInfo)
        ensures
            r == info_of(text.spec_bytes()),
    {
        let s = text.as_bytes();
        let n = s.len();
        let ghost sq = s@;
        let mut chars: usize = 0;
        let mut utf16: usize = 0;
        let mut lf: usize = 0;
        let mut crlf: usize = 0;
        let mut uni: usize = 0;
        let mut i: usize = 0;
        while i < n
            invariant
                n == sq.len(),
                sq == s@,
                i <= n,
                chars == char_count(sq.subrange(0, i as int)),
                utf16 == utf16_count(sq.subrange(0, i as int)),
                lf == line_break_count(sq.subrange(0, i as int), LineType::LF),
                crlf == line_break_count(sq.subrange(0, i as int), LineType::CRLF),
                uni == line_break_count(sq.subrange(0, i as int), LineType::Unicode),
            decreases n - i,
        {
            proof {
                lemma_count_push(sq, i as int, Metric::Chars);
                lemma_count_push(sq, i as int, Metric::Utf16);
                lemma_count_push(sq, i as int, Metric::Lines(LineType::LF));
                lemma_count_push(sq, i as int, Metric::Lines(LineType::CRLF));
                lemma_count_push(sq, i as int, Metric::Lines(LineType::Unicode));
                lemma_all_counts_le_len(sq.subrange(0, i as int));
            }
            if metric_at_byte(s, i, Metric::Chars) {
                chars = chars + 1;
            }
            if metric_at_byte(s, i, Metric::Utf16) {
                utf16 = utf16 + 1;
            }
            if metric_at_byte(s, i, Metric::Lines(LineType::LF)) {
                lf = lf + 1;
            }
            if metric_at_byte(s, i, Metric::Lines(LineType::CRLF)) {
                crlf = crlf + 1;
            }
            if metric_at_byte(s, i, Metric::Lines(LineType::Unicode)) {
                uni = uni + 1;
            }
            i = i + 1;
        }
        assert(sq.subrange(0, n as int) =~= sq);
        TextInfo {
            bytes: n,
            chars,
            utf16,
            line_breaks_lf: lf,
            line_breaks_crlf: crlf,
            line_breaks_unicode: uni,
            starts_with_lf: n > 0 && s[0] == 0x0A,
            ends_with_cr: n > 0 && s[n - 1] == 0x0D,
        }
    }

    /// The summary of the same text when the byte right after it is (or is
    /// not) an LF: a trailing CR then ends no line break of its own, since it
    /// belongs to the CRLF break that the following LF closes.
    pub fn adjusted_by_next_is_lf(self, next_is_lf: bool) -> (r: TextInfo)
        requires
            self.bounded(),
        ensures
            r == (if next_is_lf && self.ends_with_cr {
                TextInfo {
                    line_breaks_crlf: (self.line_breaks_crlf - 1) as usize,
                    line_breaks_unicode: (self.line_breaks_unicode - 1) as usize,
                    ..self
                }
            } else {
                self
            }),
    {
        if next_is_lf && self.ends_with_cr {
            TextInfo {
                line_breaks_crlf: self.line_breaks_crlf - 1,
                line_breaks_unicode: self.line_breaks_unicode - 1,
                ..self
            }
        } else {
            self
        }
    }

    /// The number of line breaks of kind `lt`.
    pub fn line_breaks(&self, lt: LineType) -> (r: usize)
        ensures
            r == self.line_breaks_spec(lt),
    {
        match lt {
            LineType::LF => self.line_breaks_lf,
            LineType::CRLF => self.line_breaks_crlf,
            LineType::Unicode => self.line_breaks_unicode,
        }
    }

    /// Summary of the concatenation of the text described by `self` with the
    /// text described by `other`: counts add up, and a CR ending `self`
    /// followed by an LF starting `other` is one line break, not two.
    pub fn append(self, other: TextInfo) -> (r: TextInfo)
        requires
            self.can_append(other),
        ensures
            r == self.append_spec(other),
            r.bounded(),
    {
        let seam: usize = if self.ends_with_cr && other.starts_with_lf {
            1
        } else {
            0
        };
        TextInfo {
            bytes: self.bytes + other.bytes,
            chars: self.chars + other.chars,
            utf16: self.utf16 + other.utf16,
            line_breaks_lf: self.line_breaks_lf + other.line_breaks_lf,
            line_breaks_crlf: self.line_breaks_crlf + other.line_breaks_crlf - seam,
            line_breaks_unicode: self.line_breaks_unicode + other.line_breaks_unicode - seam,
            starts_with_lf: if self.bytes == 0 {
                other.starts_with_lf
            } else {
                self.starts_with_lf
            },
            ends_with_cr: if other.bytes == 0 {
                self.ends_with_cr
            } else {
                other.ends_with_cr
            },
        }
    }
}

} // verus!
