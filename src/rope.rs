//! A rope over the tree: the root node, kept well formed across edits.

use std::cmp::Ordering;
use vstd::prelude::*;
use vstd::string::StringSliceAdditionalSpecFns;
use vstd::utf8::*;
use crate::MAX_BYTES;
use crate::leaf_text::lemma_boundary_within_3;
use crate::node::{Node, spliced, lemma_boundary_middle};
use crate::text_info::{
    LineType,
    Metric,
    metric_at,
    metric_count,
    char_count,
    line_break_count,
    lemma_count_concat,
    lemma_count_le_len,
    lemma_count_prefix_le,
    lemma_valid_starts_clean,
};
use crate::str_utils::{byte_to_char_idx, byte_to_char_spec, char_to_byte_idx, is_char_start_of};

verus! {

/// Byte-wise lexicographic order of two byte sequences.
pub open spec fn lex_cmp(a: Seq<u8>, b: Seq<u8>) -> Ordering
    decreases a.len(),
{
    if a.len() == 0 {
        if b.len() == 0 {
            Ordering::Equal
        } else {
            Ordering::Less
        }
    } else if b.len() == 0 {
        Ordering::Greater
    } else if a[0] < b[0] {
        Ordering::Less
    } else if a[0] > b[0] {
        Ordering::Greater
    } else {
        lex_cmp(a.drop_first(), b.drop_first())
    }
}

/// Inserting two pieces one after the other inserts their concatenation.
pub proof fn lemma_splice_twice(s: Seq<u8>, i: int, a: Seq<u8>, b: Seq<u8>)
    requires
        0 <= i <= s.len(),
    ensures
        spliced(spliced(s, i, a), i + a.len(), b) == spliced(s, i, a + b),
{
    let t = spliced(s, i, a);
    assert(t.subrange(0, i + a.len()) =~= s.subrange(0, i) + a);
    assert(t.subrange(i + a.len(), t.len() as int) =~= s.subrange(i, s.len() as int));
    assert(spliced(t, i + a.len(), b) =~= spliced(s, i, a + b));
}

/// Where `text` may be cut so that the first piece fits one insertion: a
/// char boundary, past the start when `text` is not empty.
fn piece_len(text: &str) -> (k: usize)
    requires
        text.spec_bytes().len() <= usize::MAX,
    ensures
        k <= text.spec_bytes().len(),
        k + 4 <= MAX_BYTES,
        is_char_boundary(text.spec_bytes(), k as int),
        text.spec_bytes().len() > 0 ==> k > 0,
{
    let n = text.len();
    let m: usize = if n <= MAX_BYTES - 4 {
        n
    } else {
        MAX_BYTES - 4
    };
    let ghost b = text.spec_bytes();
    let ghost w: int = m as int;
    proof {
        encode_utf8_valid_utf8(text@);
        is_char_boundary_start_end_of_seq(b);
        if m < n {
            lemma_boundary_within_3(b, m - 3);
            w = choose|p: int| m - 3 <= p <= m && p <= b.len() && is_char_boundary(b, p);
        }
    }
    let mut q = m;
    while !text.is_char_boundary(q)
        invariant
            q <= m <= n,
            n == b.len(),
            b == text.spec_bytes(),
            m + 4 <= MAX_BYTES,
            is_char_boundary(b, 0),
            m == n || m + 4 == MAX_BYTES,
            m == n ==> is_char_boundary(b, m as int) && q == m,
            m < n ==> m - 3 <= w <= q && is_char_boundary(b, w),
        decreases q,
    {
        q = q - 1;
    }
    q
}

/// Text held in a balanced tree of chunks.
pub struct Rope {
    root: Node,
}

impl Rope {
    /// The bytes held.
    pub closed spec fn text(&self) -> Seq<u8> {
        self.root.text()
    }

    pub closed spec fn wf(&self) -> bool {
        self.root.wf()
    }

    /// A rope holding nothing.
    pub fn new() -> (r: Rope)
        ensures
            r.wf(),
            r.text().len() == 0,
    {
        Rope { root: Node::new() }
    }

    /// A rope holding `text`.
    pub fn from_str(text: &str) -> (r: Rope)
        requires
            text.spec_bytes().len() <= usize::MAX,
        ensures
            r.wf(),
            r.text() == text.spec_bytes(),
    {
        let mut r = Rope::new();
        proof {
            assert(spliced(Seq::<u8>::empty(), 0, text.spec_bytes()) =~= text.spec_bytes());
            r.root.lemma_wf_height(r.root.height());
            is_char_boundary_start_end_of_seq(r.text());
        }
        let _ = r.insert(0, text);
        r
    }

    /// The tree's root.
    pub fn root(&self) -> (r: &Node)
        ensures
            r.text() == self.text(),
            self.wf() ==> r.wf(),
    {
        &self.root
    }

    /// Inserts `text` at `byte_idx`.  Fails, changing nothing, when
    /// `byte_idx` is not a char boundary.
    #[verifier::spinoff_prover]
    pub fn insert(&mut self, byte_idx: usize, text: &str) -> (r: Result<(), ()>)
        requires
            old(self).wf(),
            old(self).text().len() + text.spec_bytes().len() <= usize::MAX,
        ensures
            final(self).wf(),
            r is Err <==> !is_char_boundary(old(self).text(), byte_idx as int),
            r is Err ==> final(self).text() == old(self).text(),
            r is Ok ==> final(self).text() == spliced(old(self).text(), byte_idx as int, text.spec_bytes()),
    {
        proof {
            self.root.lemma_wf_height(self.root.height());
        }
        if !self.root.is_char_boundary(byte_idx) {
            return Err(());
        }
        let ghost t0 = self.text();
        let ghost tb = text.spec_bytes();
        proof {
            encode_utf8_valid_utf8(text@);
            crate::leaf_text::lemma_boundary_in_range(t0, byte_idx as int);
            assert(spliced(t0, byte_idx as int, Seq::<u8>::empty()) =~= t0);
        }
        let mut rest: &str = text;
        let mut at: usize = byte_idx;
        while rest.len() > 0
            invariant
                self.wf(),
                byte_idx <= at,
                at - byte_idx <= tb.len(),
                valid_utf8(tb),
                rest.spec_bytes() == tb.subrange(at - byte_idx, tb.len() as int),
                self.text() == spliced(t0, byte_idx as int, tb.subrange(0, at - byte_idx)),
                is_char_boundary(self.text(), at as int),
                at <= self.text().len(),
                t0.len() + tb.len() <= usize::MAX,
                byte_idx <= t0.len(),
            decreases rest.spec_bytes().len(),
        {
            let k = piece_len(rest);
            let (piece, tail) = rest.split_at(k);
            let ghost before = self.text();
            let ghost done = at - byte_idx;
            proof {
                self.root.lemma_wf_height(self.root.height());
                assert(piece.spec_bytes() =~= tb.subrange(done, done + k));
                assert(tail.spec_bytes() =~= tb.subrange(done + k, tb.len() as int));
                assert(tb.subrange(0, done) + piece.spec_bytes() =~= tb.subrange(0, done + k));
                lemma_splice_twice(t0, byte_idx as int, tb.subrange(0, done), piece.spec_bytes());
                assert(before.len() == t0.len() + done);
            }
            self.insert_piece(at, piece);
            proof {
                encode_utf8_valid_utf8(piece@);
                is_char_boundary_start_end_of_seq(piece.spec_bytes());
                self.root.lemma_wf_height(self.root.height());
                valid_utf8_split(before, at as int);
                assert(valid_utf8(before.subrange(0, at as int)));
                assert(valid_utf8(before.subrange(at as int, before.len() as int)));
                assert(before.subrange(0, at as int).len() == at);
                lemma_boundary_middle(
                    before.subrange(0, at as int),
                    piece.spec_bytes(),
                    before.subrange(at as int, before.len() as int),
                    k as int,
                );
                assert(self.text() =~= before.subrange(0, at as int) + piece.spec_bytes() + before.subrange(at as int, before.len() as int));
                assert(is_char_boundary(self.text(), at + k));
            }
            at = at + k;
            rest = tail;
        }
        proof {
            assert(tb.subrange(0, at - byte_idx) =~= tb);
        }
        Ok(())
    }

    /// Inserts a piece small enough for one pass down the tree, growing the
    /// tree by a level when the root splits.
    fn insert_piece(&mut self, byte_idx: usize, piece: &str)
        requires
            old(self).wf(),
            byte_idx <= old(self).text().len(),
            is_char_boundary(old(self).text(), byte_idx as int),
            piece.spec_bytes().len() + 4 <= MAX_BYTES,
            old(self).text().len() + piece.spec_bytes().len() <= usize::MAX,
        ensures
            final(self).wf(),
            final(self).text() == spliced(old(self).text(), byte_idx as int, piece.spec_bytes()),
    {
        let ghost h = self.root.height();
        let info = self.root.text_info();
        match self.root.insert_at_byte_idx(byte_idx, piece, info) {
            Ok((l_info, None)) => {
                proof {
                    self.root.lemma_wf_height(h);
                }
            },
            Ok((l_info, Some((r_info, right)))) => {
                proof {
                    self.root.lemma_wf_height(h);
                    assert(spliced(old(self).text(), byte_idx as int, piece.spec_bytes()).len() == old(self).text().len() + piece.spec_bytes().len());
                }
                let mut left = Node::new();
                std::mem::swap(&mut left, &mut self.root);
                self.root = left.grow(l_info, right, r_info);
                proof {
                    self.root.lemma_wf_height(h + 1);
                }
            },
            Err(_) => {},
        }
    }

    /// Removes the bytes in `[byte_idx_range[0], byte_idx_range[1])`.  Fails,
    /// changing nothing, when either end is not a char boundary.
    #[verifier::spinoff_prover]
    pub fn remove(&mut self, byte_idx_range: [usize; 2]) -> (r: Result<(), ()>)
        requires
            old(self).wf(),
            byte_idx_range[0] <= byte_idx_range[1] <= old(self).text().len(),
        ensures
            final(self).wf(),
            r is Err <==> !(is_char_boundary(old(self).text(), byte_idx_range[0] as int)
                && is_char_boundary(old(self).text(), byte_idx_range[1] as int)),
            r is Err ==> final(self).text() == old(self).text(),
            r is Ok ==> final(self).text() == old(self).text().subrange(0, byte_idx_range[0] as int)
                + old(self).text().subrange(byte_idx_range[1] as int, old(self).text().len() as int),
    {
        let ghost h = self.root.height();
        let info = self.root.text_info();
        match self.root.remove_byte_range(byte_idx_range, info) {
            Ok(_) => {
                proof {
                    self.root.lemma_loose(h);
                }
                if self.root.is_internal() && self.root.child_count() == 0 {
                    self.root = Node::new();
                } else {
                    proof {
                        self.root.lemma_wf_height(h);
                    }
                    self.collapse();
                }
                Ok(())
            },
            Err(_) => Err(()),
        }
    }

    /// Replaces a root with a single child by that child, repeatedly.
    fn collapse(&mut self)
        requires
            old(self).wf(),
        ensures
            final(self).wf(),
            final(self).text() == old(self).text(),
    {
        loop
            invariant
                self.wf(),
                self.text() == old(self).text(),
            decreases self.root.height(),
        {
            if !self.root.is_internal() {
                break;
            }
            if self.root.child_count() != 1 {
                break;
            }
            let child = self.root.only_child();
            proof {
                child.lemma_wf_height((self.root.height() - 1) as nat);
            }
            self.root = child;
        }
    }

    /// Length in bytes.
    pub fn len_bytes(&self) -> (r: usize)
        requires
            self.wf(),
        ensures
            r == self.text().len(),
    {
        proof {
            self.root.lemma_wf_height(self.root.height());
        }
        self.root.text_info().bytes
    }

    /// Length in Unicode scalars.
    pub fn len_chars(&self) -> (r: usize)
        requires
            self.wf(),
        ensures
            r == crate::text_info::char_count(self.text()),
    {
        proof {
            self.root.lemma_wf_height(self.root.height());
            crate::text_info::lemma_all_counts_le_len(self.text());
        }
        self.root.text_info().chars
    }

    /// Length in UTF-16 code units.
    pub fn len_utf16(&self) -> (r: usize)
        requires
            self.wf(),
        ensures
            r == crate::text_info::utf16_count(self.text()),
    {
        proof {
            self.root.lemma_wf_height(self.root.height());
            crate::text_info::lemma_all_counts_le_len(self.text());
        }
        self.root.text_info().utf16
    }

    /// The number of lines: one more than the number of line breaks of kind
    /// `line_type`.
    pub fn len_lines(&self, line_type: LineType) -> (r: usize)
        requires
            self.wf(),
            self.text().len() < usize::MAX,
        ensures
            r == line_break_count(self.text(), line_type) + 1,
    {
        proof {
            self.root.lemma_wf_height(self.root.height());
            crate::text_info::lemma_all_counts_le_len(self.text());
        }
        self.root.text_info().line_breaks(line_type) + 1
    }

    /// Converts a byte index to a char index: the leaf holding the byte is
    /// found down the tree, and only that leaf is scanned.  A byte inside a
    /// multi-byte char maps to that char.
    #[verifier::spinoff_prover]
    pub fn byte_to_char(&self, byte_idx: usize) -> (r: usize)
        requires
            self.wf(),
            byte_idx <= self.text().len(),
        ensures
            r == byte_to_char_spec(self.text(), byte_idx as int),
    {
        let info = self.root.text_info();
        let (prefix, leaf, offset) = self.root.get_text_at_byte(byte_idx, info);
        let c = byte_to_char_idx(leaf.as_str(), offset);
        let ghost t = self.text();
        let ghost st = prefix.bytes as int;
        let ghost lb = leaf.bytes();
        proof {
            self.root.lemma_wf_height(self.root.height());
            leaf.lemma_wf();
            lemma_valid_starts_clean(lb);
            lemma_count_le_len(t.subrange(0, st), Metric::Chars);
            lemma_count_le_len(t, Metric::Chars);
            if byte_idx as int == t.len() {
                assert(offset == lb.len());
                assert(t =~= t.subrange(0, st) + lb);
                lemma_count_concat(t.subrange(0, st), lb, Metric::Chars);
            } else {
                let lp = lb.subrange(0, offset + 1);
                assert(t.subrange(0, byte_idx + 1) =~= t.subrange(0, st) + lp);
                lemma_count_concat(t.subrange(0, st), lp, Metric::Chars);
                lemma_count_prefix_le(t, byte_idx + 1, Metric::Chars);
                lemma_count_prefix_le(lp, 1, Metric::Chars);
                assert(lp.subrange(0, 1).drop_last().len() == 0);
                reveal_with_fuel(metric_count, 2);
                assert(metric_at(lp.subrange(0, 1), 0, Metric::Chars));
            }
        }
        prefix.chars + c
    }

    /// Converts a char index to the byte index where that char starts; the
    /// char count maps to the byte length.  The leaf holding the char is
    /// found down the tree by the children's char counts, and only that
    /// leaf is scanned.
    #[verifier::spinoff_prover]
    pub fn char_to_byte(&self, char_idx: usize) -> (r: usize)
        requires
            self.wf(),
            char_idx <= char_count(self.text()),
        ensures
            is_char_start_of(self.text(), char_idx as int, r as int),
    {
        let info = self.root.text_info();
        let (prefix, leaf, offset) = self.root.get_text_at_char(char_idx, info);
        let b = char_to_byte_idx(leaf.as_str(), offset);
        let ghost t = self.text();
        let ghost st = prefix.bytes as int;
        let ghost lb = leaf.bytes();
        let ghost pre = t.subrange(0, st);
        proof {
            self.root.lemma_wf_height(self.root.height());
            leaf.lemma_wf();
            lemma_valid_starts_clean(lb);
            lemma_count_le_len(pre, Metric::Chars);
            lemma_count_le_len(lb, Metric::Chars);
            assert(t.subrange(0, st + lb.len()) =~= pre + lb);
            lemma_count_concat(pre, lb, Metric::Chars);
            lemma_count_prefix_le(t, st + lb.len(), Metric::Chars);
            assert(prefix.chars == char_count(pre));
            if (offset as int) < char_count(lb) {
                let lp = lb.subrange(0, b as int);
                assert(b < lb.len());
                assert(lp.len() == 0 || lp[0] == lb[0]);
                assert(t.subrange(0, st + b) =~= pre + lp);
                lemma_count_concat(pre, lp, Metric::Chars);
                assert(t.subrange(st, st + lb.len())[b as int] == t[st + b]);
                assert(t[st + b] == lb[b as int]);
                assert(char_count(t.subrange(0, st + b)) == char_idx);
                assert(char_idx < char_count(t));
            } else {
                assert(st + lb.len() == t.len());
                assert(t.subrange(0, st + lb.len()) =~= t);
                assert(char_idx == char_count(t));
                assert(b == lb.len());
            }
        }
        prefix.bytes + b
    }

    /// Whether `byte_idx` is a char boundary.
    pub fn is_char_boundary(&self, byte_idx: usize) -> (r: bool)
        requires
            self.wf(),
        ensures
            r == is_char_boundary(self.text(), byte_idx as int),
    {
        self.root.is_char_boundary(byte_idx)
    }

    /// The text as a `String`.
    pub fn to_string(&self) -> (r: String)
        requires
            self.wf(),
        ensures
            encode_utf8(r@) == self.text(),
    {
        let mut out = String::new();
        proof {
            assert(encode_utf8(out@) =~= Seq::<u8>::empty());
        }
        self.root.push_text(&mut out);
        proof {
            assert(Seq::<u8>::empty() + self.text() =~= self.text());
        }
        out
    }

    /// Whether both ropes hold the same text.
    pub fn eq(&self, other: &Rope) -> (r: bool)
        requires
            self.wf(),
            other.wf(),
        ensures
            r == (self.text() == other.text()),
    {
        match self.cmp(other) {
            Ordering::Equal => true,
            _ => false,
        }
    }

    /// Byte-wise lexicographic comparison of the two texts, which is the
    /// order of their string forms.
    pub fn cmp(&self, other: &Rope) -> (r: Ordering)
        requires
            self.wf(),
            other.wf(),
        ensures
            r == lex_cmp(self.text(), other.text()),
            r == Ordering::Equal <==> self.text() == other.text(),
    {
        let a = self.to_string();
        let b = other.to_string();
        let r = compare_bytes(a.as_str().as_bytes(), b.as_str().as_bytes());
        proof {
            lemma_lex_equal(self.text(), other.text());
        }
        r
    }

    /// Compares the text with `s`.
    pub fn cmp_str(&self, s: &str) -> (r: Ordering)
        requires
            self.wf(),
        ensures
            r == lex_cmp(self.text(), s.spec_bytes()),
    {
        let a = self.to_string();
        compare_bytes(a.as_str().as_bytes(), s.as_bytes())
    }
}

/// Two sequences compare equal exactly when they are the same.
pub proof fn lemma_lex_equal(a: Seq<u8>, b: Seq<u8>)
    ensures
        (lex_cmp(a, b) == Ordering::Equal) <==> a == b,
    decreases a.len(),
{
    if a.len() > 0 && b.len() > 0 && a[0] == b[0] {
        lemma_lex_equal(a.drop_first(), b.drop_first());
        if a.drop_first() == b.drop_first() {
            assert(a =~= seq![a[0]] + a.drop_first());
            assert(b =~= seq![b[0]] + b.drop_first());
        }
    } else if a.len() == 0 && b.len() == 0 {
        assert(a =~= b);
    }
}

/// Distinct strings have distinct UTF-8 bytes: a rope built from a string,
/// whose bytes are that string's, renders back as the same string, and two
/// ropes are equal exactly when their string forms are.
pub proof fn law_string_form(a: Seq<char>, b: Seq<char>)
    ensures
        (encode_utf8(a) == encode_utf8(b)) <==> (a == b),
{
    encode_utf8_decode_utf8(a);
    encode_utf8_decode_utf8(b);
}

/// Byte-wise lexicographic comparison.
fn compare_bytes(a: &[u8], b: &[u8]) -> (r: Ordering)
    ensures
        r == lex_cmp(a@, b@),
{
    let mut i: usize = 0;
    assert(a@.subrange(0, a@.len() as int) =~= a@);
    assert(b@.subrange(0, b@.len() as int) =~= b@);
    while i < a.len() && i < b.len()
        invariant
            i <= a@.len(),
            i <= b@.len(),
            lex_cmp(a@, b@) == lex_cmp(a@.subrange(i as int, a@.len() as int), b@.subrange(i as int, b@.len() as int)),
        decreases a@.len() - i,
    {
        let x = a[i];
        let y = b[i];
        let ghost sa = a@.subrange(i as int, a@.len() as int);
        let ghost sb = b@.subrange(i as int, b@.len() as int);
        if x < y {
            return Ordering::Less;
        }
        if x > y {
            return Ordering::Greater;
        }
        proof {
            assert(sa.drop_first() =~= a@.subrange(i + 1, a@.len() as int));
            assert(sb.drop_first() =~= b@.subrange(i + 1, b@.len() as int));
        }
        i = i + 1;
    }
    if i < a.len() {
        Ordering::Greater
    } else if i < b.len() {
        Ordering::Less
    } else {
        Ordering::Equal
    }
}

} // verus!
