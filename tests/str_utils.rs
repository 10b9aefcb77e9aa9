use ropey::str_utils::{
    byte_to_char_idx, byte_to_line_idx, char_to_byte_idx, char_to_line_idx, count_chars,
    count_line_breaks, line_to_byte_idx, line_to_char_idx, ByteChunk, LineBreakIter,
};
use ropey::str_utils::{byte_to_utf16_idx, utf16_to_byte_idx};

// 124 bytes, 100 chars, 4 lines
const TEXT_LINES: &str = "Hello there!  How're you doing?\nIt's \
                          a fine day, isn't it?\nAren't you glad \
                          we're alive?\nこんにちは、みんなさん！";

#[test]
fn count_chars_01() {
    let text =
        "Hello せかい! Hello せかい! Hello せかい! Hello せかい! Hello せかい!";

    assert_eq!(54, count_chars(text));
}

#[test]
fn count_chars_02() {
    assert_eq!(100, count_chars(TEXT_LINES));
}

#[test]
fn line_breaks_iter_01() {
    let text = "\u{000A}Hello\u{000D}\u{000A}\u{000D}せ\u{000B}か\u{000C}い\u{0085}. \
                There\u{2028}is something.\u{2029}";
    let mut itr = LineBreakIter::new(text);
    assert_eq!(48, text.len());
    assert_eq!(Some(1), itr.next());
    assert_eq!(Some(8), itr.next());
    assert_eq!(Some(9), itr.next());
    assert_eq!(Some(13), itr.next());
    assert_eq!(Some(17), itr.next());
    assert_eq!(Some(22), itr.next());
    assert_eq!(Some(32), itr.next());
    assert_eq!(Some(48), itr.next());
    assert_eq!(None, itr.next());
}

#[test]
fn count_line_breaks_01() {
    let text = "\u{000A}Hello\u{000D}\u{000A}\u{000D}せ\u{000B}か\u{000C}い\u{0085}. \
                There\u{2028}is something.\u{2029}";
    assert_eq!(48, text.len());
    assert_eq!(8, count_line_breaks(text));
}

#[test]
fn count_line_breaks_02() {
    let text = "\u{000A}Hello world!  This is a longer text.\u{000D}\u{000A}\u{000D}To better test that skipping by usize doesn't mess things up.\u{000B}Hello せかい!\u{000C}\u{0085}Yet more text.  How boring.\u{2028}Hi.\u{2029}\u{000A}Hello world!  This is a longer text.\u{000D}\u{000A}\u{000D}To better test that skipping by usize doesn't mess things up.\u{000B}Hello せかい!\u{000C}\u{0085}Yet more text.  How boring.\u{2028}Hi.\u{2029}\u{000A}Hello world!  This is a longer text.\u{000D}\u{000A}\u{000D}To better test that skipping by usize doesn't mess things up.\u{000B}Hello せかい!\u{000C}\u{0085}Yet more text.  How boring.\u{2028}Hi.\u{2029}\u{000A}Hello world!  This is a longer text.\u{000D}\u{000A}\u{000D}To better test that skipping by usize doesn't mess things up.\u{000B}Hello せかい!\u{000C}\u{0085}Yet more text.  How boring.\u{2028}Hi.\u{2029}";
    assert_eq!(count_line_breaks(text), LineBreakIter::new(text).count());
}

#[test]
fn byte_to_char_idx_01() {
    let text = "Hello せかい!";
    assert_eq!(0, byte_to_char_idx(text, 0));
    assert_eq!(1, byte_to_char_idx(text, 1));
    assert_eq!(6, byte_to_char_idx(text, 6));
    assert_eq!(6, byte_to_char_idx(text, 7));
    assert_eq!(6, byte_to_char_idx(text, 8));
    assert_eq!(7, byte_to_char_idx(text, 9));
    assert_eq!(7, byte_to_char_idx(text, 10));
    assert_eq!(7, byte_to_char_idx(text, 11));
    assert_eq!(8, byte_to_char_idx(text, 12));
    assert_eq!(8, byte_to_char_idx(text, 13));
    assert_eq!(8, byte_to_char_idx(text, 14));
    assert_eq!(9, byte_to_char_idx(text, 15));
    assert_eq!(10, byte_to_char_idx(text, 16));
    assert_eq!(10, byte_to_char_idx(text, 17));
    assert_eq!(10, byte_to_char_idx(text, 18));
    assert_eq!(10, byte_to_char_idx(text, 19));
}

#[test]
fn byte_to_char_idx_02() {
    let text = "せかい";
    assert_eq!(0, byte_to_char_idx(text, 0));
    assert_eq!(0, byte_to_char_idx(text, 1));
    assert_eq!(0, byte_to_char_idx(text, 2));
    assert_eq!(1, byte_to_char_idx(text, 3));
    assert_eq!(1, byte_to_char_idx(text, 4));
    assert_eq!(1, byte_to_char_idx(text, 5));
    assert_eq!(2, byte_to_char_idx(text, 6));
    assert_eq!(2, byte_to_char_idx(text, 7));
    assert_eq!(2, byte_to_char_idx(text, 8));
    assert_eq!(3, byte_to_char_idx(text, 9));
    assert_eq!(3, byte_to_char_idx(text, 10));
    assert_eq!(3, byte_to_char_idx(text, 11));
    assert_eq!(3, byte_to_char_idx(text, 12));
}

#[test]
fn byte_to_char_idx_03() {
    // Ascii range
    for i in 0..88 {
        assert_eq!(i, byte_to_char_idx(TEXT_LINES, i));
    }

    // Hiragana characters
    for i in 88..125 {
        assert_eq!(88 + ((i - 88) / 3), byte_to_char_idx(TEXT_LINES, i));
    }

    // Past the end
    for i in 125..130 {
        assert_eq!(100, byte_to_char_idx(TEXT_LINES, i));
    }
}

#[test]
fn byte_to_line_idx_01() {
    let text = "Here\nare\nsome\nwords";
    assert_eq!(0, byte_to_line_idx(text, 0));
    assert_eq!(0, byte_to_line_idx(text, 4));
    assert_eq!(1, byte_to_line_idx(text, 5));
    assert_eq!(1, byte_to_line_idx(text, 8));
    assert_eq!(2, byte_to_line_idx(text, 9));
    assert_eq!(2, byte_to_line_idx(text, 13));
    assert_eq!(3, byte_to_line_idx(text, 14));
    assert_eq!(3, byte_to_line_idx(text, 19));
}

#[test]
fn byte_to_line_idx_02() {
    let text = "\nHere\nare\nsome\nwords\n";
    assert_eq!(0, byte_to_line_idx(text, 0));
    assert_eq!(1, byte_to_line_idx(text, 1));
    assert_eq!(1, byte_to_line_idx(text, 5));
    assert_eq!(2, byte_to_line_idx(text, 6));
    assert_eq!(2, byte_to_line_idx(text, 9));
    assert_eq!(3, byte_to_line_idx(text, 10));
    assert_eq!(3, byte_to_line_idx(text, 14));
    assert_eq!(4, byte_to_line_idx(text, 15));
    assert_eq!(4, byte_to_line_idx(text, 20));
    assert_eq!(5, byte_to_line_idx(text, 21));
}

#[test]
fn byte_to_line_idx_03() {
    let text = "Here\r\nare\r\nsome\r\nwords";
    assert_eq!(0, byte_to_line_idx(text, 0));
    assert_eq!(0, byte_to_line_idx(text, 4));
    assert_eq!(0, byte_to_line_idx(text, 5));
    assert_eq!(1, byte_to_line_idx(text, 6));
    assert_eq!(1, byte_to_line_idx(text, 9));
    assert_eq!(1, byte_to_line_idx(text, 10));
    assert_eq!(2, byte_to_line_idx(text, 11));
    assert_eq!(2, byte_to_line_idx(text, 15));
    assert_eq!(2, byte_to_line_idx(text, 16));
    assert_eq!(3, byte_to_line_idx(text, 17));
}

#[test]
fn byte_to_line_idx_04() {
    // Line 0
    for i in 0..32 {
        assert_eq!(0, byte_to_line_idx(TEXT_LINES, i));
    }

    // Line 1
    for i in 32..59 {
        assert_eq!(1, byte_to_line_idx(TEXT_LINES, i));
    }

    // Line 2
    for i in 59..88 {
        assert_eq!(2, byte_to_line_idx(TEXT_LINES, i));
    }

    // Line 3
    for i in 88..125 {
        assert_eq!(3, byte_to_line_idx(TEXT_LINES, i));
    }

    // Past the end
    for i in 125..130 {
        assert_eq!(3, byte_to_line_idx(TEXT_LINES, i));
    }
}

#[test]
fn char_to_byte_idx_01() {
    let text = "Hello せかい!";
    assert_eq!(0, char_to_byte_idx(text, 0));
    assert_eq!(1, char_to_byte_idx(text, 1));
    assert_eq!(2, char_to_byte_idx(text, 2));
    assert_eq!(5, char_to_byte_idx(text, 5));
    assert_eq!(6, char_to_byte_idx(text, 6));
    assert_eq!(12, char_to_byte_idx(text, 8));
    assert_eq!(15, char_to_byte_idx(text, 9));
    assert_eq!(16, char_to_byte_idx(text, 10));
}

#[test]
fn char_to_byte_idx_02() {
    let text = "せかい";
    assert_eq!(0, char_to_byte_idx(text, 0));
    assert_eq!(3, char_to_byte_idx(text, 1));
    assert_eq!(6, char_to_byte_idx(text, 2));
    assert_eq!(9, char_to_byte_idx(text, 3));
}

#[test]
fn char_to_byte_idx_03() {
    let text = "Hello world!";
    assert_eq!(0, char_to_byte_idx(text, 0));
    assert_eq!(1, char_to_byte_idx(text, 1));
    assert_eq!(8, char_to_byte_idx(text, 8));
    assert_eq!(11, char_to_byte_idx(text, 11));
    assert_eq!(12, char_to_byte_idx(text, 12));
}

#[test]
fn char_to_byte_idx_04() {
    let text = "Hello world! Hello せかい! Hello world! Hello せかい! \
                Hello world! Hello せかい! Hello world! Hello せかい! \
                Hello world! Hello せかい! Hello world! Hello せかい! \
                Hello world! Hello せかい! Hello world! Hello せかい!";
    assert_eq!(0, char_to_byte_idx(text, 0));
    assert_eq!(30, char_to_byte_idx(text, 24));
    assert_eq!(60, char_to_byte_idx(text, 48));
    assert_eq!(90, char_to_byte_idx(text, 72));
    assert_eq!(115, char_to_byte_idx(text, 93));
    assert_eq!(120, char_to_byte_idx(text, 96));
    assert_eq!(150, char_to_byte_idx(text, 120));
    assert_eq!(180, char_to_byte_idx(text, 144));
    assert_eq!(210, char_to_byte_idx(text, 168));
    assert_eq!(239, char_to_byte_idx(text, 191));
}

#[test]
fn char_to_byte_idx_05() {
    // Ascii range
    for i in 0..88 {
        assert_eq!(i, char_to_byte_idx(TEXT_LINES, i));
    }

    // Hiragana characters
    for i in 88..100 {
        assert_eq!(88 + ((i - 88) * 3), char_to_byte_idx(TEXT_LINES, i));
    }

    // Past the end
    for i in 100..110 {
        assert_eq!(124, char_to_byte_idx(TEXT_LINES, i));
    }
}

#[test]
fn char_to_line_idx_01() {
    let text = "Hello せ\nか\nい!";
    assert_eq!(0, char_to_line_idx(text, 0));
    assert_eq!(0, char_to_line_idx(text, 7));
    assert_eq!(1, char_to_line_idx(text, 8));
    assert_eq!(1, char_to_line_idx(text, 9));
    assert_eq!(2, char_to_line_idx(text, 10));
}

#[test]
fn char_to_line_idx_02() {
    // Line 0
    for i in 0..32 {
        assert_eq!(0, char_to_line_idx(TEXT_LINES, i));
    }

    // Line 1
    for i in 32..59 {
        assert_eq!(1, char_to_line_idx(TEXT_LINES, i));
    }

    // Line 2
    for i in 59..88 {
        assert_eq!(2, char_to_line_idx(TEXT_LINES, i));
    }

    // Line 3
    for i in 88..100 {
        assert_eq!(3, char_to_line_idx(TEXT_LINES, i));
    }

    // Past the end
    for i in 100..110 {
        assert_eq!(3, char_to_line_idx(TEXT_LINES, i));
    }
}

#[test]
fn line_to_byte_idx_01() {
    let text = "Here\r\nare\r\nsome\r\nwords";
    assert_eq!(0, line_to_byte_idx(text, 0));
    assert_eq!(6, line_to_byte_idx(text, 1));
    assert_eq!(11, line_to_byte_idx(text, 2));
    assert_eq!(17, line_to_byte_idx(text, 3));
}

#[test]
fn line_to_byte_idx_02() {
    let text = "\nHere\nare\nsome\nwords\n";
    assert_eq!(0, line_to_byte_idx(text, 0));
    assert_eq!(1, line_to_byte_idx(text, 1));
    assert_eq!(6, line_to_byte_idx(text, 2));
    assert_eq!(10, line_to_byte_idx(text, 3));
    assert_eq!(15, line_to_byte_idx(text, 4));
    assert_eq!(21, line_to_byte_idx(text, 5));
}

#[test]
fn line_to_byte_idx_03() {
    assert_eq!(0, line_to_byte_idx(TEXT_LINES, 0));
    assert_eq!(32, line_to_byte_idx(TEXT_LINES, 1));
    assert_eq!(59, line_to_byte_idx(TEXT_LINES, 2));
    assert_eq!(88, line_to_byte_idx(TEXT_LINES, 3));

    // Past end
    assert_eq!(124, line_to_byte_idx(TEXT_LINES, 4));
    assert_eq!(124, line_to_byte_idx(TEXT_LINES, 5));
    assert_eq!(124, line_to_byte_idx(TEXT_LINES, 6));
}

#[test]
fn line_to_char_idx_01() {
    let text = "Hello せ\nか\nい!";
    assert_eq!(0, line_to_char_idx(text, 0));
    assert_eq!(8, line_to_char_idx(text, 1));
    assert_eq!(10, line_to_char_idx(text, 2));
}

#[test]
fn line_to_char_idx_02() {
    assert_eq!(0, line_to_char_idx(TEXT_LINES, 0));
    assert_eq!(32, line_to_char_idx(TEXT_LINES, 1));
    assert_eq!(59, line_to_char_idx(TEXT_LINES, 2));
    assert_eq!(88, line_to_char_idx(TEXT_LINES, 3));

    // Past end
    assert_eq!(100, line_to_char_idx(TEXT_LINES, 4));
    assert_eq!(100, line_to_char_idx(TEXT_LINES, 5));
    assert_eq!(100, line_to_char_idx(TEXT_LINES, 6));
}

#[test]
fn line_byte_round_trip() {
    let text = "\nHere\nare\nsome\nwords\n";
    assert_eq!(6, line_to_byte_idx(text, byte_to_line_idx(text, 6)));
    assert_eq!(2, byte_to_line_idx(text, line_to_byte_idx(text, 2)));

    assert_eq!(0, line_to_byte_idx(text, byte_to_line_idx(text, 0)));
    assert_eq!(0, byte_to_line_idx(text, line_to_byte_idx(text, 0)));

    assert_eq!(21, line_to_byte_idx(text, byte_to_line_idx(text, 21)));
    assert_eq!(5, byte_to_line_idx(text, line_to_byte_idx(text, 5)));
}

#[test]
fn line_char_round_trip() {
    let text = "\nHere\nare\nsome\nwords\n";
    assert_eq!(6, line_to_char_idx(text, char_to_line_idx(text, 6)));
    assert_eq!(2, char_to_line_idx(text, line_to_char_idx(text, 2)));

    assert_eq!(0, line_to_char_idx(text, char_to_line_idx(text, 0)));
    assert_eq!(0, char_to_line_idx(text, line_to_char_idx(text, 0)));

    assert_eq!(21, line_to_char_idx(text, char_to_line_idx(text, 21)));
    assert_eq!(5, char_to_line_idx(text, line_to_char_idx(text, 5)));
}

#[test]
fn has_bytes_less_than_01() {
    let v: usize = 0x0709080905090609;
    assert!(v.has_bytes_less_than(0x0A));
    assert!(v.has_bytes_less_than(0x06));
    assert!(!v.has_bytes_less_than(0x05));
}

#[test]
fn flag_bytes_01() {
    let v: usize = 0xE2_09_08_A6_E2_A6_E2_09;
    assert_eq!(0x00_00_00_00_00_00_00_00, v.cmp_eq_byte(0x07));
    assert_eq!(0x00_00_01_00_00_00_00_00, v.cmp_eq_byte(0x08));
    assert_eq!(0x00_01_00_00_00_00_00_01, v.cmp_eq_byte(0x09));
    assert_eq!(0x00_00_00_01_00_01_00_00, v.cmp_eq_byte(0xA6));
    assert_eq!(0x01_00_00_00_01_00_01_00, v.cmp_eq_byte(0xE2));
}

#[test]
fn char_byte_round_trip_all() {
    let text = "Hello せかい! 😀\r\n\u{2028}end";
    let n = count_chars(text);
    for c in 0..=n {
        assert_eq!(c, byte_to_char_idx(text, char_to_byte_idx(text, c)));
    }
}

#[test]
fn line_break_counts_empty_and_crlf() {
    assert_eq!(0, count_line_breaks(""));
    assert_eq!(0, count_chars(""));
    assert_eq!(1, count_line_breaks("\r\n"));
    assert_eq!(2, count_line_breaks("\n\r"));
    assert_eq!(0, byte_to_line_idx("", 5));
    assert_eq!(0, line_to_byte_idx("", 3));
    assert_eq!(1, byte_to_line_idx("a\r\nb", 3));
    assert_eq!(0, byte_to_line_idx("a\r\nb", 2));
    assert_eq!(3, line_to_byte_idx("a\r\nb", 1));
}

#[test]
fn byte_chunk_splat() {
    assert_eq!(0x0A0A0A0A0A0A0A0A, <usize as ByteChunk>::splat(0x0A));
    assert_eq!(0, <usize as ByteChunk>::splat(0));
}

#[test]
fn utf16_conversions() {
    let text = "a😀せb";
    // bytes: a(0) 😀(1..5) せ(5..8) b(8) ; utf16: a(0) 😀(1,2) せ(3) b(4)
    assert_eq!(0, byte_to_utf16_idx(text, 0));
    assert_eq!(1, byte_to_utf16_idx(text, 1));
    assert_eq!(1, byte_to_utf16_idx(text, 3));
    assert_eq!(3, byte_to_utf16_idx(text, 5));
    assert_eq!(3, byte_to_utf16_idx(text, 6));
    assert_eq!(4, byte_to_utf16_idx(text, 8));
    assert_eq!(5, byte_to_utf16_idx(text, 9));
    assert_eq!(5, byte_to_utf16_idx(text, 50));
    assert_eq!(0, utf16_to_byte_idx(text, 0));
    assert_eq!(1, utf16_to_byte_idx(text, 1));
    assert_eq!(1, utf16_to_byte_idx(text, 2));
    assert_eq!(5, utf16_to_byte_idx(text, 3));
    assert_eq!(8, utf16_to_byte_idx(text, 4));
    assert_eq!(9, utf16_to_byte_idx(text, 5));
    assert_eq!(9, utf16_to_byte_idx(text, 7));
    for b in [0usize, 1, 5, 8, 9] {
        assert_eq!(b, utf16_to_byte_idx(text, byte_to_utf16_idx(text, b)));
    }
}

#[test]
fn line_byte_round_trip_all() {
    let text = "\nHere\r\nare\u{2028}some\u{0085}words\r";
    let lines = count_line_breaks(text);
    assert_eq!(5, lines);
    for l in 0..=lines {
        assert_eq!(l, byte_to_line_idx(text, line_to_byte_idx(text, l)));
    }
}

#[test]
fn byte_chunk_word_ops() {
    let v: usize = 0xE2_09_08_A6_E2_A6_E2_09;
    assert!(!v.is_zero());
    assert!(0usize.is_zero());
    assert_eq!(0x00_E2_09_08_A6_E2_A6_E2, v.shift_back_lex(1));
    assert_eq!(0x00_00_E2_09_08_A6_E2_A6, v.shift_back_lex(2));
    assert_eq!(v >> 3, v.shr(3));
    assert_eq!(0x00_00_01_00_00_00_00_00, v.bytes_between(0x07, 0x09));
    assert_eq!(0x00_01_01_00_00_00_00_01, v.bytes_between(0x07, 0x0A));
    assert_eq!(0x00_00_00_00_00_00_00_00, v.bytes_between(0x09, 0x0A));
    assert_eq!(v & 0xFF, v.bitand(0xFF));
    assert_eq!(0x0202, 0x0101usize.add(0x0101));
    assert_eq!(0x0100, 0x0201usize.sub(0x0101));
    assert_eq!(0x01_00_00_00_00_00_00_00, 0usize.inc_nth_from_end_lex_byte(0));
    assert_eq!(0x00_01_00_00_00_00_00_00, 0usize.inc_nth_from_end_lex_byte(1));
    assert_eq!(0x00_00_00_00_00_00_00_05, 0x01_00_00_00_00_00_00_05usize.dec_last_lex_byte());
    assert_eq!(0x08, 0x01_01_01_01_01_01_01_01usize.sum_bytes());
    assert_eq!(0xE2 + 0x09 + 0x08 + 0xA6 + 0xE2 + 0xA6 + 0xE2 + 0x09, v.sum_bytes());
}
