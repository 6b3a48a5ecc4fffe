use mtsender::text::{
    chars_of, has_char, hex_decode, is_hex_sliceable, is_percent_sliceable, percent_decode,
    port_of, replace, rsplit_once, same_text, split, split_once, strip_prefix, trim, white_space,
};

#[test]
fn texts_are_cut_at_separators() {
    assert_eq!(split_once("a=b=c", '='), Some(("a", "b=c")));
    assert_eq!(rsplit_once("a=b=c", '='), Some(("a=b", "c")));
    assert_eq!(split_once("abc", '='), None);
    assert_eq!(rsplit_once("abc", '='), None);
    assert_eq!(split_once("=", '='), Some(("", "")));
    assert_eq!(split("a&b&&c", '&'), vec!["a", "b", "", "c"]);
    assert_eq!(split("", '&'), vec![""]);
    assert_eq!(split("ä&ö", '&'), vec!["ä", "ö"]);
    assert!(has_char("a:b", ':'));
    assert!(!has_char("ab", ':'));
}

#[test]
fn prefixes_are_stripped() {
    assert_eq!(strip_prefix("mtproxy://x", "mtproxy://"), Some("x"));
    assert_eq!(strip_prefix("mtproxy:/x", "mtproxy://"), None);
    assert_eq!(strip_prefix("m", "mtproxy://"), None);
    assert!(same_text("abc", "abc"));
    assert!(!same_text("abc", "abd"));
    assert!(!same_text("abc", "ab"));
    assert_eq!(chars_of("aß"), vec!['a', 'ß']);
}

#[test]
fn white_space_is_what_the_standard_library_says() {
    for number in 0..=0x10_ffffu32 {
        if let Some(c) = char::from_u32(number) {
            assert_eq!(white_space(c), c.is_whitespace(), "{:x}", number);
        }
    }
}

#[test]
fn texts_are_trimmed() {
    for text in ["", " ", "a", " a b\t\n", "\u{3000}x\u{2028}", "\u{200b}x"] {
        assert_eq!(trim(text), text.trim());
    }
}

#[test]
fn ports_are_positive_and_fit_16_bits() {
    for text in [
        "1", "443", "65535", "65536", "0", "00", "", "+443", "+", "-1", "4 43", " 443", "0443",
        "99999999999999999999999999", "000000000000000000000000001", "４",
    ] {
        let expected = text.parse::<u16>().ok().filter(|port| *port > 0);
        assert_eq!(port_of(text), expected, "{}", text);
    }
}

#[test]
fn hexadecimal_is_read_back() {
    let all: Vec<u8> = (0..=255).collect();
    let mut lower = String::new();
    let mut upper = String::new();
    for byte in &all {
        lower.push_str(&format!("{:02x}", byte));
        upper.push_str(&format!("{:02X}", byte));
    }
    assert!(is_hex_sliceable(&lower));
    assert_eq!(hex_decode(&lower), Some(all.clone()));
    assert_eq!(hex_decode(&upper), Some(all));
}

#[test]
fn hexadecimal_is_read_pair_by_pair() {
    assert_eq!(hex_decode(""), Some(vec![]));
    assert_eq!(hex_decode("0"), None);
    assert_eq!(hex_decode("0g"), None);
    assert_eq!(hex_decode("+f"), Some(vec![0x0f]));
    assert_eq!(hex_decode("f+"), None);
    assert_eq!(hex_decode("-1"), None);
    assert_eq!(hex_decode("ä"), None);
    assert!(is_hex_sliceable("ä"));
    assert!(is_hex_sliceable("aä"));
    assert!(!is_hex_sliceable("aaa€"));
    assert!(is_hex_sliceable("xaa€"));
    assert!(is_hex_sliceable("xx€a"));
    assert!(!is_hex_sliceable("€a"));
}

#[test]
fn percent_encoding_is_taken_apart() {
    assert_eq!(percent_decode("a%20b+c"), "a b c");
    assert_eq!(percent_decode("100%"), "100%");
    assert_eq!(percent_decode("%4"), "%4");
    assert_eq!(percent_decode("%41"), "A");
    assert_eq!(percent_decode("%zz%41"), "%zzA");
    assert_eq!(percent_decode("%c3%a4"), "ä");
    assert_eq!(percent_decode("%ff"), "\u{fffd}");
    assert_eq!(percent_decode("%+1"), "\u{1}");
}

#[test]
fn plain_text_stands_for_itself() {
    for text in ["", "white.mtproxy.pw", "höst-ü.example"] {
        assert!(is_percent_sliceable(text));
        assert_eq!(percent_decode(text), text);
    }
}

#[test]
fn percent_signs_before_cut_characters_are_noticed() {
    assert!(!is_percent_sliceable("%a€"));
    assert!(!is_percent_sliceable("%aä"));
    assert!(is_percent_sliceable("%aaä"));
    assert!(is_percent_sliceable("%ä"));
    assert!(!is_percent_sliceable("%€"));
    assert!(is_percent_sliceable("%"));
}

#[test]
fn replacing_goes_from_left_to_right() {
    for (text, from, to) in [
        ("a%3Bb%3B", "%3B", ";"),
        ("%3", "%3B", ";"),
        ("", "%3B", ";"),
        ("aaa", "aa", "b"),
        ("%3B%3B", "%3B", ""),
        ("ä%3Bö", "%3B", "€"),
    ] {
        assert_eq!(replace(text, from, to), text.replace(from, to));
    }
}
