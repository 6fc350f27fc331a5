use radar::bytes::split_on;
use radar::bytes::split_once_on;
use radar::number::decimal_string;
use radar::number::parse_usize;
use radar::text::trim_str;

#[test]
fn decimal_strings() {
    assert_eq!(decimal_string(0), "0");
    assert_eq!(decimal_string(7), "7");
    assert_eq!(decimal_string(10), "10");
    assert_eq!(decimal_string(1234567), "1234567");
    assert_eq!(decimal_string(usize::MAX), usize::MAX.to_string());
}

#[test]
fn parse_usize_like_from_str_radix() {
    for s in ["0", "42", "+42", "+", "-1", "", "4a", "ff", "FF", "1_0", " 1", "18446744073709551616"] {
        for radix in [10usize, 16] {
            let ours = parse_usize(s.as_bytes(), radix);
            let std = usize::from_str_radix(s, radix as u32).ok();
            assert_eq!(ours, std, "{} in base {}", s, radix);
        }
    }
}

#[test]
fn parse_usize_overflow() {
    let max = usize::MAX.to_string();
    assert_eq!(parse_usize(max.as_bytes(), 10), Some(usize::MAX));
    let over = format!("{}0", max);
    assert_eq!(parse_usize(over.as_bytes(), 10), None);
}

#[test]
fn trim_like_str_trim() {
    for s in ["", "   ", " a ", "\u{85}x\u{200a}", "a b", "\n\tline\r\n", "\u{200b}z"] {
        assert_eq!(trim_str(s), s.trim(), "{:?}", s);
    }
}

#[test]
fn split_like_str_split() {
    let pieces = split_on(b"a\r\nbb\r\n\r\nc", b"\r\n");
    assert_eq!(pieces, vec![b"a".to_vec(), b"bb".to_vec(), Vec::new(), b"c".to_vec()]);
    let pieces = split_on(b"abc", b"\r\n");
    assert_eq!(pieces, vec![b"abc".to_vec()]);
    let pieces = split_on(b"x\r\n", b"\r\n");
    assert_eq!(pieces, vec![b"x".to_vec(), Vec::new()]);
}

#[test]
fn split_once_like_str_split_once() {
    assert_eq!(split_once_on(b"Key: a: b", b": "), Some((b"Key".to_vec(), b"a: b".to_vec())));
    assert_eq!(split_once_on(b"Key:a", b": "), None);
}
