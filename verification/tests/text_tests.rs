use soc_pipeline::text::{
    split_whitespace, parse_i32, parse_usize, u128_to_decimal, i64_to_decimal, slice_bytes,
    slice_bytes_from, byte_length, trim, last_segment, replace_nul, contains, starts_with,
    same_text, skip_chars, white_space,
};

#[test]
fn split_whitespace_matches_std() {
    let samples = [
        "",
        "   ",
        "a",
        " a  b\tc\nd ",
        "x\u{a0}y\u{3000}z\u{85}w",
        "keep\u{1d}together",
        "nul\0inside token",
    ];
    for s in samples {
        let expected: Vec<String> = s.split_whitespace().map(|t| t.to_string()).collect();
        assert_eq!(split_whitespace(s), expected, "{:?}", s);
    }
}

#[test]
fn white_space_matches_std() {
    for c in ['\t', '\n', '\u{b}', '\u{c}', '\r', ' ', '\u{85}', '\u{a0}', '\u{1680}', '\u{2000}',
        '\u{200a}', '\u{2028}', '\u{2029}', '\u{202f}', '\u{205f}', '\u{3000}', 'a', '\0',
        '\u{1d}', '\u{200b}', '\u{180e}'] {
        assert_eq!(white_space(c), c.is_whitespace(), "{:?}", c);
    }
}

#[test]
fn parse_i32_matches_std() {
    let samples = ["0", "-0", "+7", "1777474222", "2147483647", "2147483648", "-2147483648",
        "-2147483649", "", "-", "+", "12a", " 1", "٣", "00042", "99999999999999999999"];
    for s in samples {
        assert_eq!(parse_i32(s), s.parse::<i32>().ok(), "{:?}", s);
    }
}

#[test]
fn parse_usize_matches_std() {
    let samples = ["0", "+3", "-3", "", "+", "3x", "18446744073709551615",
        "18446744073709551616", "0003"];
    for s in samples {
        assert_eq!(parse_usize(s), s.parse::<usize>().ok(), "{:?}", s);
    }
}

#[test]
fn decimal_forms_match_std() {
    for n in [0u128, 7, 10, 1408665, u128::MAX] {
        assert_eq!(u128_to_decimal(n), n.to_string());
    }
    for n in [0i64, -1, 1777474222, i64::MIN, i64::MAX] {
        assert_eq!(i64_to_decimal(n), n.to_string());
    }
}

#[test]
fn byte_slices_match_std() {
    let s = "name=\"/usr/bin/été\"";
    assert_eq!(byte_length(s), s.len() as u128);
    assert_eq!(slice_bytes(s, 6, s.len() as u128 - 1), Some(s[6..s.len() - 1].to_string()));
    assert_eq!(slice_bytes_from("item=0", 5), Some("0".to_string()));
    assert_eq!(slice_bytes("cwd=\"/root\"", 5, 6), Some("/".to_string()));
    // offsets that are no character boundary, or out of range, or reversed
    assert_eq!(slice_bytes("abcdé", 5, 6), None);
    assert_eq!(slice_bytes("abc", 2, 9), None);
    assert_eq!(slice_bytes("abc", 2, 1), None);
    assert_eq!(slice_bytes_from("abc", 5), None);
}

#[test]
fn trim_matches_std() {
    for s in ["", "  ", " sudo ls -la ", "x", "\u{3000}y\t"] {
        assert_eq!(trim(s), s.trim());
    }
}

#[test]
fn last_segment_matches_rsplit() {
    for s in ["/usr/bin/sudo", "sudo", "/", "a/", ""] {
        assert_eq!(last_segment(s, '/'), s.rsplit('/').next().unwrap());
    }
}

#[test]
fn replace_nul_matches_std() {
    let s = "a0=\"x\0y\"\0";
    assert_eq!(replace_nul(s), s.replace('\0', " "));
}

#[test]
fn text_searches() {
    assert!(contains("xxtype=EXECVEyy", "type=EXECVE"));
    assert!(!contains("type=EXECV", "type=EXECVE"));
    assert!(contains("abc", ""));
    assert!(starts_with("uid=0", "uid="));
    assert!(!starts_with("auid=0", "uid="));
    assert!(same_text("auditd:", "auditd:"));
    assert!(!same_text("auditd", "auditd:"));
    assert_eq!(skip_chars("proctitle=abc", 10), "abc");
    assert_eq!(skip_chars("short", 10), "");
}
