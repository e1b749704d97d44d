use cdg_player::text::{
    chars_of, lower_char, lower_chars, next_field, next_word, number_u32, number_u64, position_of, same_chars,
    stands_at, string_of, trimmed, white_space,
};

fn trim(s: &str) -> String {
    string_of(trimmed(&chars_of(s)))
}

#[test]
fn white_space_as_in_std() {
    for n in 0..0x11_0000u32 {
        if let Some(c) = char::from_u32(n) {
            assert_eq!(white_space(c), c.is_whitespace(), "{:x}", n);
        }
    }
}

#[test]
fn small_letters_as_in_std() {
    for n in 0..0x11_0000u32 {
        if let Some(c) = char::from_u32(n) {
            assert_eq!(lower_char(c), c.to_ascii_lowercase(), "{:x}", n);
        }
    }
    assert_eq!(string_of(&lower_chars(&chars_of("ÀBc.CUE"))), "Àbc.cue");
}

#[test]
fn trim_as_in_std() {
    for s in ["", " ", "a", " a b ", "\t\r\n x\u{a0}", "\u{3000}é\u{2028}", "\u{200b}z"] {
        assert_eq!(trim(s), s.trim());
    }
}

#[test]
fn words_as_in_std() {
    for s in ["", "  ", "TRACK 01 AUDIO", " a\u{2003}b\tc ", "one"] {
        let chars = chars_of(s);
        let mut found: Vec<String> = Vec::new();
        let mut rest: &[char] = &chars;
        while let Some((word, more)) = next_word(rest) {
            found.push(string_of(word));
            rest = more;
        }
        let expected: Vec<String> = s.split_whitespace().map(|w| w.to_string()).collect();
        assert_eq!(found, expected);
    }
}

#[test]
fn fields_as_in_std() {
    for s in ["", ":", "a:b:c", "::", "no"] {
        let chars = chars_of(s);
        let mut found: Vec<String> = Vec::new();
        let mut rest: Option<&[char]> = Some(&chars);
        while let Some(r) = rest {
            let (field, more) = next_field(r, ':');
            found.push(string_of(field));
            rest = more;
        }
        let expected: Vec<String> = s.split(':').map(|f| f.to_string()).collect();
        assert_eq!(found, expected);
    }
}

#[test]
fn numbers_as_in_std() {
    for s in [
        "", "+", "-", "0", "-0", "+7", "++7", "007", "12a", " 1", "4294967295", "4294967296",
        "18446744073709551615", "18446744073709551616", "99999999999999999999999", "٣", "00000000000000000000001",
    ] {
        assert_eq!(number_u64(&chars_of(s)), s.parse::<u64>().ok(), "{}", s);
        assert_eq!(number_u32(&chars_of(s)), s.parse::<u32>().ok(), "{}", s);
    }
}

#[test]
fn positions() {
    let s = chars_of("soundtrack track");
    assert_eq!(position_of(&s, &chars_of("track")), Some(5));
    assert_eq!(position_of(&s, &chars_of("tracks")), None);
    assert_eq!(position_of(&s, &chars_of("")), Some(0));
    assert_eq!(position_of(&chars_of(""), &chars_of("")), Some(0));
    assert_eq!(position_of(&chars_of(""), &chars_of("a")), None);
    assert!(stands_at(&s, &chars_of("track"), 11));
    assert!(!stands_at(&s, &chars_of("track"), 12));
    assert!(!stands_at(&s, &chars_of(""), 17));
    assert!(stands_at(&s, &chars_of(""), 16));
    assert!(same_chars(&chars_of("ab"), &chars_of("ab")));
    assert!(!same_chars(&chars_of("ab"), &chars_of("aB")));
    assert!(!same_chars(&chars_of("ab"), &chars_of("abc")));
}
