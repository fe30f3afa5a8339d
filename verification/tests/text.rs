use http_server::http::text::{
    bytes_eq, char_is_whitespace, decimal_text, split_ranges, str_eq, text_chars, trim_range,
};

#[test]
fn whitespace_agrees_with_the_standard_library() {
    for code in 0..=0x10ffffu32 {
        if let Some(c) = char::from_u32(code) {
            assert_eq!(char_is_whitespace(c), c.is_whitespace(), "U+{code:04X}");
        }
    }
}

#[test]
fn decimal_text_of_numbers() {
    assert_eq!(decimal_text(0), "0");
    assert_eq!(decimal_text(7), "7");
    assert_eq!(decimal_text(10), "10");
    assert_eq!(decimal_text(1234567890), "1234567890");
    assert_eq!(decimal_text(usize::MAX), usize::MAX.to_string());
    for n in 0..3000usize {
        assert_eq!(decimal_text(n), n.to_string());
    }
}

#[test]
fn decimal_text_is_read_back() {
    for n in [0usize, 1, 9, 10, 99, 100, 4096, usize::MAX - 1, usize::MAX] {
        let text = decimal_text(n);
        assert_eq!(http_server::http::scan::parse_usize(text.as_bytes()), Some(n));
    }
}

#[test]
fn characters_of_a_text() {
    assert_eq!(text_chars(""), Vec::<char>::new());
    assert_eq!(text_chars("a\u{e9}\u{2603}\u{1f600}"), vec!['a', '\u{e9}', '\u{2603}', '\u{1f600}']);
}

#[test]
fn equality_of_texts_and_bytes() {
    assert!(str_eq("", ""));
    assert!(str_eq("abc", "abc"));
    assert!(!str_eq("abc", "abd"));
    assert!(!str_eq("abc", "ab"));
    assert!(!str_eq("\u{e9}", "e\u{301}"));
    assert!(bytes_eq(b"", b""));
    assert!(bytes_eq(b"\x00\xff", b"\x00\xff"));
    assert!(!bytes_eq(b"a", b""));
    assert!(!bytes_eq(b"ab", b"ac"));
}

fn pieces(text: &str, separator: char) -> Vec<String> {
    let chars = text_chars(text);
    split_ranges(&chars, separator)
        .into_iter()
        .map(|(from, to)| chars[from..to].iter().collect())
        .collect()
}

#[test]
fn splitting_keeps_empty_pieces() {
    assert_eq!(pieces("", '/'), vec![""]);
    assert_eq!(pieces("/", '/'), vec!["", ""]);
    assert_eq!(pieces("a", '/'), vec!["a"]);
    assert_eq!(pieces("/echo/abc", '/'), vec!["", "echo", "abc"]);
    assert_eq!(pieces("a//b/", '/'), vec!["a", "", "b", ""]);
}

#[test]
fn splitting_agrees_with_the_standard_library() {
    let alphabet = ['/', 'a', 'b', '\u{e9}', ','];
    let mut state: u64 = 0x1234_5678_9abc_def1;
    for _ in 0..20000 {
        state ^= state << 13;
        state ^= state >> 7;
        state ^= state << 17;
        let len = state % 10;
        let mut text = String::new();
        for _ in 0..len {
            state ^= state << 13;
            state ^= state >> 7;
            state ^= state << 17;
            text.push(alphabet[(state >> 8) as usize % alphabet.len()]);
        }
        let expected: Vec<String> = text.split('/').map(|p| p.to_string()).collect();
        assert_eq!(pieces(&text, '/'), expected, "text {text:?}");
    }
}

#[test]
fn trimming_agrees_with_the_standard_library() {
    let alphabet = [' ', '\t', '\n', '\u{a0}', '\u{3000}', 'a', 'b', '\u{200b}'];
    let mut state: u64 = 0x0fed_cba9_8765_4321;
    for _ in 0..20000 {
        state ^= state << 13;
        state ^= state >> 7;
        state ^= state << 17;
        let len = state % 8;
        let mut text = String::new();
        for _ in 0..len {
            state ^= state << 13;
            state ^= state >> 7;
            state ^= state << 17;
            text.push(alphabet[(state >> 8) as usize % alphabet.len()]);
        }
        let chars = text_chars(&text);
        let (from, to) = trim_range(&chars, 0, chars.len());
        let trimmed: String = chars[from..to].iter().collect();
        assert_eq!(trimmed, text.trim(), "text {text:?}");
    }
}

#[test]
fn trimming_a_piece_stays_within_it() {
    let chars = text_chars("ab  cd  ef");
    assert_eq!(trim_range(&chars, 2, 8), (4, 6));
    assert_eq!(trim_range(&chars, 2, 4), (4, 4));
    assert_eq!(trim_range(&chars, 0, 2), (0, 2));
    assert_eq!(trim_range(&chars, 5, 5), (5, 5));
}
