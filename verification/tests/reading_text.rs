use lport::number::{decimal_string, push_decimal_int, read_i32, read_u32, read_u64};
use lport::text::{
    chars_of, position_of, position_of_text, space, split_at_char, split_at_char_n, split_lines,
    split_words, string_of, text_of, trimmed, without_leading, without_trailing,
};

fn strings(parts: Vec<&[char]>) -> Vec<String> {
    parts.into_iter().map(string_of).collect()
}

const SAMPLES: [&str; 14] = [
    "", " ", "a", "a b", "  a  b ", "a\nb", "a\r\nb\r\n", "a\n\nb", "\r", "a\r", "x:y::z:", "\u{3000}가 나\u{a0}",
    "v1.2-rc", "\n",
];

#[test]
fn splitting_agrees_with_the_standard_library() {
    for s in SAMPLES {
        let cs = chars_of(s);
        let words: Vec<&str> = s.split_whitespace().collect();
        assert_eq!(strings(split_words(&cs)), words, "words of {:?}", s);
        let lines: Vec<&str> = s.lines().collect();
        assert_eq!(strings(split_lines(&cs)), lines, "lines of {:?}", s);
        let parts: Vec<&str> = s.split(':').collect();
        assert_eq!(strings(split_at_char(&cs, ':')), parts, "parts of {:?}", s);
        for n in 1..4 {
            let parts: Vec<&str> = s.splitn(n, ':').collect();
            assert_eq!(strings(split_at_char_n(&cs, ':', n)), parts, "{} parts of {:?}", n, s);
        }
        assert_eq!(string_of(trimmed(&cs)), s.trim(), "trim of {:?}", s);
        assert_eq!(string_of(without_leading(&cs, 'a')), s.trim_start_matches('a'));
        assert_eq!(string_of(without_trailing(&cs, ':')), s.trim_end_matches(':'));
    }
}

#[test]
fn white_space_is_that_of_the_standard_library() {
    for n in 0..0x11_0000u32 {
        if let Some(c) = char::from_u32(n) {
            assert_eq!(space(c), c.is_whitespace(), "{:x}", n);
        }
    }
}

#[test]
fn searching_finds_the_first_place() {
    let cs = chars_of("a->b->c");
    assert_eq!(position_of(&cs, '-'), Some(1));
    assert_eq!(position_of(&cs, 'x'), None);
    assert_eq!(position_of_text(&cs, "->"), Some(1));
    assert_eq!(position_of_text(&cs, "->c"), Some(4));
    assert_eq!(position_of_text(&cs, "->d"), None);
}

#[test]
fn numbers_are_read_as_the_standard_library_reads_them() {
    for s in [
        "0", "7", "007", "+7", "-7", "-0", "+", "-", "", "4294967295", "4294967296", "18446744073709551615",
        "18446744073709551616", "2147483647", "2147483648", "-2147483648", "-2147483649", "1 ", "x", "１",
    ] {
        let cs = chars_of(s);
        assert_eq!(read_u32(&cs), s.parse::<u32>().ok(), "u32 {:?}", s);
        assert_eq!(read_u64(&cs), s.parse::<u64>().ok(), "u64 {:?}", s);
        assert_eq!(read_i32(&cs), s.parse::<i32>().ok(), "i32 {:?}", s);
    }
}

#[test]
fn written_numbers_read_back() {
    for n in [0u64, 9, 10, 65535, 4294967296, u64::MAX] {
        assert_eq!(decimal_string(n), n.to_string());
        assert_eq!(read_u64(&chars_of(&decimal_string(n))), Some(n));
    }
    for n in [0i32, -1, 143, i32::MIN, i32::MAX] {
        let mut s = String::new();
        push_decimal_int(&mut s, n);
        assert_eq!(s, n.to_string());
    }
}

#[test]
fn output_bytes_become_text() {
    assert_eq!(text_of(b"plain"), "plain");
    assert_eq!(text_of("프로젝트 →".as_bytes()), "프로젝트 →");
    assert_eq!(text_of(&[0x61, 0xff, 0x62]), "a\u{fffd}b");
    assert_eq!(text_of(&[]), "");
}
