use vik::error::VikError;
use vik::hash::sha256_hex;
use vik::object::{encode_object, hash_object, object_path, parse_object};
use vik::text::{decimal_bytes, parse_usize_bytes, split_lines, trim_bytes};

#[test]
fn object_encoding_hash_is_stable() {
    let data = b"hello";
    let encoded = encode_object("blob", data);
    assert_eq!(sha256_hex(&encoded), sha256_hex(&encoded));
}

#[test]
fn encode_object_writes_header_then_data() {
    assert_eq!(encode_object("blob", b"hello"), b"blob 5\0hello".to_vec());
    assert_eq!(encode_object("tree", b""), b"tree 0\0".to_vec());
}

#[test]
fn sha256_hex_known_values() {
    assert_eq!(
        sha256_hex(b""),
        b"e3b0c44298fc1c149afbf4c8996fb92427ae41e4649b934ca495991b7852b855".to_vec()
    );
    assert_eq!(
        sha256_hex(b"blob 5\0hello"),
        b"8aec4e4876f854f688d0ebfc8f37598f38e5fd6903cccc850ca36591175aeb60".to_vec()
    );
}

#[test]
fn hash_object_gives_id_and_bytes() {
    let o = hash_object("blob", b"hello");
    assert_eq!(o.bytes, b"blob 5\0hello".to_vec());
    assert_eq!(o.oid, b"8aec4e4876f854f688d0ebfc8f37598f38e5fd6903cccc850ca36591175aeb60".to_vec());
    assert_eq!(o.oid.len(), 64);
}

#[test]
fn parse_object_reads_back_encoding() {
    let p = parse_object(&encode_object("commit", b"a b\0c")).ok().unwrap();
    assert_eq!(p.kind, b"commit".to_vec());
    assert_eq!(p.content, b"a b\0c".to_vec());
}

#[test]
fn parse_object_accepts_plus_sign_size() {
    let p = parse_object(b"blob +3\0abc").ok().unwrap();
    assert_eq!(p.kind, b"blob".to_vec());
    assert_eq!(p.content, b"abc".to_vec());
}

#[test]
fn parse_object_errors() {
    assert!(matches!(parse_object(b"blob 3 abc"), Err(VikError::MissingHeaderSeparator)));
    assert!(matches!(parse_object(b"\xff 1\0a"), Err(VikError::HeaderNotUtf8)));
    assert!(matches!(parse_object(b"blob\0"), Err(VikError::MissingObjectSize)));
    assert!(matches!(parse_object(b"blob x\0"), Err(VikError::InvalidObjectSize)));
    assert!(matches!(parse_object(b"blob -1\0"), Err(VikError::InvalidObjectSize)));
    assert!(matches!(parse_object(b"blob 1 2\0a"), Err(VikError::InvalidObjectSize)));
    assert!(matches!(
        parse_object(b"blob 99999999999999999999999\0"),
        Err(VikError::InvalidObjectSize)
    ));
    assert!(matches!(parse_object(b"blob 2\0abc"), Err(VikError::SizeMismatch)));
}

#[test]
fn object_path_splits_after_two_bytes() {
    assert!(matches!(object_path(b"ab"), Err(VikError::InvalidObjectId)));
    let (dir, file) = object_path(b"abcdef").ok().unwrap();
    assert_eq!(dir, b"ab".to_vec());
    assert_eq!(file, b"cdef".to_vec());
    let (dir, file) = object_path(b"abc").ok().unwrap();
    assert_eq!(dir, b"ab".to_vec());
    assert_eq!(file, b"c".to_vec());
}

#[test]
fn decimal_and_parse() {
    assert_eq!(decimal_bytes(0), b"0".to_vec());
    assert_eq!(decimal_bytes(1234), b"1234".to_vec());
    assert_eq!(decimal_bytes(u64::MAX), b"18446744073709551615".to_vec());
    assert_eq!(parse_usize_bytes(b"+12"), Some(12));
    assert_eq!(parse_usize_bytes(b"007"), Some(7));
    assert_eq!(parse_usize_bytes(b""), None);
    assert_eq!(parse_usize_bytes(b"+"), None);
    assert_eq!(parse_usize_bytes(b"-1"), None);
    assert_eq!(parse_usize_bytes(b"1a"), None);
    let max = usize::MAX.to_string();
    assert_eq!(parse_usize_bytes(max.as_bytes()), Some(usize::MAX));
    let over = format!("{}0", usize::MAX);
    assert_eq!(parse_usize_bytes(over.as_bytes()), None);
}

#[test]
fn lines_follow_str_lines() {
    assert_eq!(split_lines(b"a\r\nb\n"), vec![b"a".to_vec(), b"b".to_vec()]);
    assert_eq!(split_lines(b"a\r"), vec![b"a\r".to_vec()]);
    assert_eq!(split_lines(b"\n\nx"), vec![b"".to_vec(), b"".to_vec(), b"x".to_vec()]);
    assert_eq!(split_lines(b""), Vec::<Vec<u8>>::new());
    let text = "one\r\ntwo\n\nthree\r";
    let expected: Vec<Vec<u8>> = text.lines().map(|l| l.as_bytes().to_vec()).collect();
    assert_eq!(split_lines(text.as_bytes()), expected);
}

#[test]
fn trim_follows_str_trim() {
    assert_eq!(trim_bytes(b" \t x y \n"), b"x y".to_vec());
    let s = "\u{3000}\u{2028}x\u{a0}\u{85}";
    assert_eq!(trim_bytes(s.as_bytes()), s.trim().as_bytes().to_vec());
    assert_eq!(trim_bytes(" \u{1680}\u{200a} ".as_bytes()), Vec::<u8>::new());
    let t = "\u{202f}é\u{205f}";
    assert_eq!(trim_bytes(t.as_bytes()), t.trim().as_bytes().to_vec());
}
