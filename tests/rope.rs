use ropey::leaf_text::LeafText;
use ropey::node::Node;
use ropey::rope::Rope;
use ropey::text_info::{LineType, TextInfo};
use std::cmp::Ordering;

// 124 bytes, 100 chars, 4 lines
const TEXT_LINES: &str = "Hello there!  How're you doing?\nIt's \
                          a fine day, isn't it?\nAren't you glad \
                          we're alive?\nこんにちは、みんなさん！";

fn long_text() -> String {
    let mut s = String::new();
    for i in 0..400 {
        s.push_str(&format!("line {} せかい\r\n", i));
        if i % 7 == 0 {
            s.push_str("\u{2028}\u{0085}\r");
        }
    }
    s
}

fn check_tree(r: &Rope) {
    let root = r.root();
    assert!(root.assert_no_empty_internal());
    assert_eq!(root.assert_accurate_text_info(), root.text_info());
    assert_eq!(root.assert_accurate_text_info(), TextInfo::from_str(&r.to_string()));
    let depth = root.assert_equal_leaf_depth();
    assert!(depth >= 1);
}

#[test]
fn rope_lengths_of_text_lines() {
    let r = Rope::from_str(TEXT_LINES);
    assert_eq!(124, r.len_bytes());
    assert_eq!(100, r.len_chars());
    assert_eq!(100, r.len_utf16());
    assert_eq!(4, r.len_lines(LineType::LF));
    assert_eq!(4, r.len_lines(LineType::CRLF));
    assert_eq!(4, r.len_lines(LineType::Unicode));
    assert_eq!(TEXT_LINES, r.to_string());
}

#[test]
fn rope_crlf_across_insertions() {
    let mut r = Rope::new();
    assert_eq!(Ok(()), r.insert(0, "ab\r"));
    assert_eq!(Ok(()), r.insert(3, "\nxy"));
    assert_eq!("ab\r\nxy", r.to_string());
    assert_eq!(2, r.len_lines(LineType::CRLF));
    assert_eq!(2, r.len_lines(LineType::Unicode));
    assert_eq!(2, r.len_lines(LineType::LF));
    check_tree(&r);
}

#[test]
fn rope_insert_off_boundary_fails() {
    let mut r = Rope::from_str("せかい");
    assert_eq!(Err(()), r.insert(1, "x"));
    assert_eq!("せかい", r.to_string());
    assert_eq!(Ok(()), r.insert(3, "x"));
    assert_eq!("せxかい", r.to_string());
}

#[test]
fn rope_remove_off_boundary_fails() {
    let mut r = Rope::from_str("せかい");
    assert_eq!(Err(()), r.remove([1, 3]));
    assert_eq!(Err(()), r.remove([0, 4]));
    assert_eq!("せかい", r.to_string());
    assert_eq!(Ok(()), r.remove([3, 6]));
    assert_eq!("せい", r.to_string());
}

#[test]
fn rope_remove_middle() {
    let mut r = Rope::from_str("abcdefghij");
    assert_eq!(Ok(()), r.remove([2, 8]));
    assert_eq!("abij", r.to_string());
    check_tree(&r);
}

#[test]
fn rope_remove_everything() {
    let s = long_text();
    let mut r = Rope::from_str(&s);
    let n = r.len_bytes();
    assert_eq!(Ok(()), r.remove([0, n]));
    assert_eq!("", r.to_string());
    assert_eq!(0, r.len_bytes());
    assert_eq!(1, r.root().assert_equal_leaf_depth());
}

#[test]
fn rope_large_text_round_trip() {
    let s = long_text();
    assert!(s.len() > 5000);
    let r = Rope::from_str(&s);
    assert_eq!(s, r.to_string());
    assert_eq!(s.len(), r.len_bytes());
    assert_eq!(s.chars().count(), r.len_chars());
    assert_eq!(s.encode_utf16().count(), r.len_utf16());
    assert!(r.root().assert_equal_leaf_depth() >= 2);
    check_tree(&r);
}

#[test]
fn rope_edits_match_string_edits() {
    let base = long_text();
    let mut r = Rope::from_str(&base);
    let mut s = base.clone();
    let mut pos: usize = 17;
    for step in 0..60 {
        let len = s.len();
        let mut i = (pos * 31 + step * 7) % (len + 1);
        while !s.is_char_boundary(i) {
            i -= 1;
        }
        if step % 3 == 2 {
            let mut j = (i + 1 + (step * 53) % 700).min(len);
            while !s.is_char_boundary(j) {
                j += 1;
            }
            assert_eq!(Ok(()), r.remove([i, j]));
            s.replace_range(i..j, "");
        } else {
            let piece = if step % 2 == 0 { "\n新しい\r" } else { "abc\u{2029}def" };
            let big: String = piece.repeat(1 + step % 5 * 100);
            assert_eq!(Ok(()), r.insert(i, &big));
            s.insert_str(i, &big);
        }
        assert_eq!(s, r.to_string());
        assert_eq!(s.len(), r.len_bytes());
        pos = pos * 7 + 3;
        check_tree(&r);
    }
}

#[test]
fn rope_equality_and_order() {
    let a = Rope::from_str("hello world");
    let b = Rope::from_str("hello world");
    let c = Rope::from_str("hello there");
    let d = Rope::from_str("hello");
    assert!(a.eq(&b));
    assert!(!a.eq(&c));
    assert_eq!(Ordering::Equal, a.cmp(&b));
    assert_eq!("hello world".cmp("hello there"), a.cmp(&c));
    assert_eq!(Ordering::Greater, a.cmp(&c));
    assert_eq!(Ordering::Less, d.cmp(&a));
    assert_eq!(Ordering::Greater, a.cmp(&d));
    assert_eq!(Ordering::Equal, a.cmp_str("hello world"));
    assert_eq!(Ordering::Less, c.cmp_str("hello world"));
}

#[test]
fn rope_is_char_boundary() {
    let r = Rope::from_str("aせb");
    assert!(r.is_char_boundary(0));
    assert!(r.is_char_boundary(1));
    assert!(!r.is_char_boundary(2));
    assert!(!r.is_char_boundary(3));
    assert!(r.is_char_boundary(4));
    assert!(r.is_char_boundary(5));
    assert!(!r.is_char_boundary(6));
}

#[test]
fn text_info_from_str_counts() {
    let t = "\u{000A}Hello\u{000D}\u{000A}\u{000D}せ\u{000B}か\u{000C}い\u{0085}. \
             There\u{2028}is something.\u{2029}";
    let info = TextInfo::from_str(t);
    assert_eq!(48, info.bytes);
    assert_eq!(t.chars().count(), info.chars);
    assert_eq!(t.encode_utf16().count(), info.utf16);
    assert_eq!(2, info.line_breaks_lf);
    assert_eq!(3, info.line_breaks_crlf);
    assert_eq!(8, info.line_breaks_unicode);
    assert!(info.starts_with_lf);
    assert!(!info.ends_with_cr);
    assert_eq!(8, info.line_breaks(LineType::Unicode));
}

#[test]
fn text_info_utf16_surrogates() {
    let info = TextInfo::from_str("a😀b");
    assert_eq!(6, info.bytes);
    assert_eq!(3, info.chars);
    assert_eq!(4, info.utf16);
}

#[test]
fn text_info_append_joins_crlf() {
    let a = TextInfo::from_str("a\r");
    let b = TextInfo::from_str("\nb");
    let ab = a.append(b);
    assert_eq!(TextInfo::from_str("a\r\nb"), ab);
    assert_eq!(1, ab.line_breaks_crlf);
    assert_eq!(2, a.line_breaks_crlf + b.line_breaks_crlf);
    assert_eq!(TextInfo::new(), TextInfo::new().append(TextInfo::new()));
    assert_eq!(a, TextInfo::new().append(a));
    assert_eq!(a, a.append(TextInfo::new()));
}

#[test]
fn text_info_append_splits() {
    let s = "x\r\ny\u{2028}z\r";
    for i in 0..=s.len() {
        if s.is_char_boundary(i) {
            let joined = TextInfo::from_str(&s[..i]).append(TextInfo::from_str(&s[i..]));
            assert_eq!(TextInfo::from_str(s), joined);
        }
    }
}

#[test]
fn text_info_adjusted_by_next_is_lf() {
    let a = TextInfo::from_str("ab\r");
    let adj = a.adjusted_by_next_is_lf(true);
    assert_eq!(0, adj.line_breaks_crlf);
    assert_eq!(0, adj.line_breaks_unicode);
    assert_eq!(0, adj.line_breaks_lf);
    assert_eq!(a, a.adjusted_by_next_is_lf(false));
    let b = TextInfo::from_str("ab");
    assert_eq!(b, b.adjusted_by_next_is_lf(true));
}

#[test]
fn leaf_text_edits() {
    let mut t = LeafText::from_str("hello");
    assert_eq!(5, t.len());
    assert_eq!(Ok(()), t.insert_str(5, " world"));
    assert_eq!(Err(()), LeafText::from_str("せ").insert_str(1, "x"));
    let c = t.chunks();
    assert_eq!("hello world", format!("{}{}", c[0], c[1]));
    assert_eq!(Ok(()), t.remove([0, 6]));
    let c = t.chunks();
    assert_eq!("world", format!("{}{}", c[0], c[1]));
    t.append_str("!");
    assert_eq!(TextInfo::from_str("world!"), t.text_info());
    assert!(t.is_char_boundary(6));
    assert!(!t.is_char_boundary(7));
}

#[test]
fn leaf_text_split_keeps_crlf() {
    let mut t = LeafText::from_str("ab\r\ncd");
    let right = t.split(3);
    let l = t.chunks();
    let r = right.chunks();
    assert_eq!("ab", format!("{}{}", l[0], l[1]));
    assert_eq!("\r\ncd", format!("{}{}", r[0], r[1]));
    let mut u = LeafText::from_str("abcd");
    let right = u.split(1);
    let r = right.chunks();
    assert_eq!("bcd", format!("{}{}", r[0], r[1]));
    assert_eq!(1, u.len());
}

#[test]
fn leaf_text_distribute() {
    let mut a = LeafText::from_str(&"x".repeat(900));
    let mut b = LeafText::from_str("\r\nyz");
    a.distribute(&mut b);
    let total = a.len() + b.len();
    assert_eq!(904, total);
    assert!(a.len() >= 904 / 2 - 4 && a.len() <= 904 / 2 + 4);
    let (la, lb) = (a.chunks(), b.chunks());
    let joined = format!("{}{}{}{}", la[0], la[1], lb[0], lb[1]);
    assert_eq!(format!("{}\r\nyz", "x".repeat(900)), joined);
}

#[test]
fn leaf_text_insert_split() {
    let mut a = LeafText::from_str(&"a".repeat(980));
    assert_eq!(11, a.free_capacity());
    let right = a.insert_str_split(490, &"ß".repeat(100)).unwrap();
    assert!(a.len() <= 991 && right.len() <= 991);
    let (l, r) = (a.chunks(), right.chunks());
    let joined = format!("{}{}{}{}", l[0], l[1], r[0], r[1]);
    let expect = format!("{}{}{}", "a".repeat(490), "ß".repeat(100), "a".repeat(490));
    assert_eq!(expect, joined);
    assert!(LeafText::from_str("せ").insert_str_split(2, "x").is_err());
}

#[test]
fn node_insert_and_remove_directly() {
    let mut n = Node::new();
    assert!(n.is_leaf());
    assert!(!n.is_internal());
    let info = n.text_info();
    let (li, split) = n.insert_at_byte_idx(0, "hello", info).unwrap();
    assert!(split.is_none());
    assert_eq!(TextInfo::from_str("hello"), li);
    let halves = n.leaf_text();
    assert_eq!("hello", format!("{}{}", halves[0], halves[1]));
    let mut m = Node::new();
    let mi = m.text_info();
    assert!(m.insert_at_byte_idx(0, "せか", mi).is_ok());
    let mi = m.text_info();
    assert!(m.insert_at_byte_idx(1, "x", mi).is_err());
    assert!(m.remove_byte_range([0, 2], mi).is_err());
    assert_eq!(TextInfo::from_str("せか"), m.text_info());
    let info = n.remove_byte_range([1, 3], li).unwrap();
    assert_eq!(TextInfo::from_str("hlo"), info);
    assert!(n.assert_no_empty_leaf());
    assert_eq!(1, n.assert_equal_leaf_depth());
}

#[test]
fn node_split_grows_children() {
    let r = Rope::from_str(&"0123456789".repeat(300));
    let root = r.root();
    assert!(root.is_internal());
    let count = root.child_count();
    assert!(count >= 2 && count <= 6);
    assert_eq!(count, root.children().len());
    assert_eq!(count, root.children().nodes().len());
    assert_eq!(count, root.children().info().len());
    let info = root.children().combined_text_info();
    assert_eq!(3000, info.bytes);
    let (i, acc) = root.children().search_byte_idx_only(0);
    assert_eq!((0, 0), (i, acc));
    let (i, acc) = root.children().search_byte_idx_only(2999);
    assert_eq!(count - 1, i);
    assert!(acc <= 2999);
    assert!(root.assert_no_empty_leaf());
}

#[test]
fn node_get_text_at_byte() {
    let s = long_text();
    let r = Rope::from_str(&s);
    let root = r.root();
    let info = root.text_info();
    for idx in [0usize, 1, 500, 991, 992, 2500, s.len() - 1, s.len()] {
        let (prefix, leaf, offset) = root.get_text_at_byte(idx, info);
        let start = prefix.bytes;
        assert_eq!(idx, start + offset);
        assert_eq!(TextInfo::from_str(&s[..start]), prefix);
        let c = leaf.chunks();
        let chunk = format!("{}{}", c[0], c[1]);
        assert_eq!(&s[start..start + chunk.len()], chunk.as_str());
        assert!(offset < chunk.len() || idx == s.len());
    }
}

#[test]
fn rope_from_str_round_trip_edge_cases() {
    for s in ["", "a", "\r\n", "せかい", "😀😀😀", "\r\r\n\n"] {
        let r = Rope::from_str(s);
        assert_eq!(s, r.to_string());
        assert!(r.eq(&Rope::from_str(s)));
    }
    let big = "😀".repeat(600);
    let r = Rope::from_str(&big);
    assert_eq!(big, r.to_string());
    assert_eq!(1200, r.len_utf16());
    assert_eq!(600, r.len_chars());
}

#[test]
fn rope_order_matches_strings() {
    let words = ["", "a", "ab", "abc", "b", "せ", "a\u{0}", "Z", "zz"];
    for x in words.iter() {
        for y in words.iter() {
            let rx = Rope::from_str(x);
            let ry = Rope::from_str(y);
            assert_eq!(x.cmp(y), rx.cmp(&ry));
            assert_eq!(x == y, rx.eq(&ry));
        }
    }
}

#[test]
fn rope_insert_then_remove_restores() {
    let base = long_text();
    let mut r = Rope::from_str(&base);
    let mut at = 1234;
    while !base.is_char_boundary(at) {
        at += 1;
    }
    let piece = "inserted ✓ text\r\n".repeat(90);
    assert_eq!(Ok(()), r.insert(at, &piece));
    assert_eq!(Ok(()), r.remove([at, at + piece.len()]));
    assert_eq!(base, r.to_string());
    check_tree(&r);
}

#[test]
fn rope_byte_to_char_matches_scanner() {
    let s = long_text();
    let r = Rope::from_str(&s);
    for idx in (0..=s.len()).step_by(37).chain([s.len()]) {
        assert_eq!(ropey::str_utils::byte_to_char_idx(&s, idx), r.byte_to_char(idx));
    }
    let t = Rope::from_str(TEXT_LINES);
    assert_eq!(88, t.byte_to_char(90));
    assert_eq!(100, t.byte_to_char(124));
}

#[test]
fn rope_char_to_byte_matches_scanner() {
    let s = long_text();
    let r = Rope::from_str(&s);
    let n = s.chars().count();
    for c in (0..=n).step_by(29).chain([n]) {
        assert_eq!(ropey::str_utils::char_to_byte_idx(&s, c), r.char_to_byte(c));
        assert_eq!(c, r.byte_to_char(r.char_to_byte(c)));
    }
    let t = Rope::from_str(TEXT_LINES);
    assert_eq!(88, t.char_to_byte(88));
    assert_eq!(91, t.char_to_byte(89));
    assert_eq!(124, t.char_to_byte(100));
}

#[test]
fn node_get_text_at_char() {
    let s = long_text();
    let r = Rope::from_str(&s);
    let root = r.root();
    let info = root.text_info();
    let n = s.chars().count();
    for c in [0usize, 1, 700, 1500, n - 1, n] {
        let (prefix, leaf, offset) = root.get_text_at_char(c, info);
        assert_eq!(c, prefix.chars + offset);
        assert_eq!(TextInfo::from_str(&s[..prefix.bytes]), prefix);
        let chunk = leaf.as_str();
        assert_eq!(&s[prefix.bytes..prefix.bytes + chunk.len()], chunk);
    }
}
