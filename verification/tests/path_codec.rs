use shs_index::error::IndexError;
use shs_index::path::{
    check_traversal, copy_segments, decode, encode, encode_link_path, names_child, request_segments,
};

fn segments(parts: &[&str]) -> Vec<String> {
    parts.iter().map(|s| s.to_string()).collect()
}

#[test]
fn encode_joins_segments_with_slashes() {
    let path = segments(&["a", "b", "c"]);
    assert_eq!(encode(&path, false, false), "a/b/c");
    assert_eq!(encode(&path, false, true), "/a/b/c");
    assert_eq!(encode(&path, true, false), "a/b/c/");
    assert_eq!(encode(&path, true, true), "/a/b/c/");
}

#[test]
fn encode_of_the_root() {
    let root: Vec<String> = Vec::new();
    assert_eq!(encode(&root, false, false), "");
    assert_eq!(encode(&root, false, true), "/");
    assert_eq!(encode(&root, true, true), "/");
    assert_eq!(encode(&root, true, false), "");
}

#[test]
fn encode_escapes_what_a_segment_cannot_hold() {
    assert_eq!(encode(&segments(&["foo bar?"]), false, false), "foo%20bar%3F");
    assert_eq!(encode(&segments(&["100%"]), false, false), "100%25");
    assert_eq!(encode(&segments(&["a/b"]), false, false), "a%2Fb");
    assert_eq!(encode(&segments(&["\"#<>`{}"]), false, false), "%22%23%3C%3E%60%7B%7D");
    assert_eq!(encode(&segments(&["\u{1}\u{7f}"]), false, false), "%01%7F");
    assert_eq!(encode(&segments(&["a-b_c.d~e!$&'()*+,;=:@"]), false, false), "a-b_c.d~e!$&'()*+,;=:@");
}

#[test]
fn encode_escapes_the_bytes_of_unicode() {
    assert_eq!(encode(&segments(&["\u{e9}"]), false, false), "%C3%A9");
    assert_eq!(encode(&segments(&["\u{65e5}\u{672c}"]), false, true), "/%E6%97%A5%E6%9C%AC");
    assert_eq!(encode(&segments(&["\u{1f600}"]), false, false), "%F0%9F%98%80");
}

#[test]
fn encode_keeps_an_empty_segment() {
    assert_eq!(encode(&segments(&["a", ""]), false, true), "/a/");
    assert_eq!(encode(&segments(&[""]), false, true), "/");
    assert_eq!(encode(&segments(&["a", "", "b"]), false, false), "a//b");
}

#[test]
fn encode_link_path_with_and_without_root() {
    let path = segments(&["docs", "my file.txt"]);
    assert_eq!(encode_link_path(&path, true), "/docs/my%20file.txt");
    assert_eq!(encode_link_path(&path, false), "docs/my%20file.txt");
    assert_eq!(encode_link_path(&Vec::new(), true), "/");
}

#[test]
fn decode_splits_and_drops_empty_pieces() {
    assert_eq!(decode("/docs/img"), Ok(segments(&["docs", "img"])));
    assert_eq!(decode("/docs//img/"), Ok(segments(&["docs", "img"])));
    assert_eq!(decode("docs/img"), Ok(segments(&["docs", "img"])));
    assert_eq!(decode("///a///"), Ok(segments(&["a"])));
}

#[test]
fn decode_of_the_root() {
    assert_eq!(decode(""), Ok(Vec::new()));
    assert_eq!(decode("/"), Ok(Vec::new()));
    assert_eq!(decode("//"), Ok(Vec::new()));
}

#[test]
fn decode_reads_percent_escapes() {
    assert_eq!(decode("/a%20b/c"), Ok(segments(&["a b", "c"])));
    assert_eq!(decode("/%C3%A9"), Ok(segments(&["\u{e9}"])));
    assert_eq!(decode("/%c3%a9"), Ok(segments(&["\u{e9}"])));
    assert_eq!(decode("/a%2Fb"), Ok(segments(&["a/b"])));
    assert_eq!(decode("/100%25"), Ok(segments(&["100%"])));
}

#[test]
fn decode_refuses_a_percent_sign_without_two_digits() {
    assert_eq!(decode("/%zz"), Err(IndexError::DecodingError));
    assert_eq!(decode("/100%"), Err(IndexError::DecodingError));
    assert_eq!(decode("/%4"), Err(IndexError::DecodingError));
    assert_eq!(decode("/%%41"), Err(IndexError::DecodingError));
    assert_eq!(decode("/%4g"), Err(IndexError::DecodingError));
    assert_eq!(decode("/ok/%"), Err(IndexError::DecodingError));
    assert_eq!(decode("/%4/1"), Err(IndexError::DecodingError));
}

#[test]
fn decode_does_not_decode_twice() {
    assert_eq!(decode("/%2541"), Ok(segments(&["%41"])));
    assert_eq!(decode("/%252F"), Ok(segments(&["%2F"])));
}

#[test]
fn decode_refuses_bytes_that_are_not_utf8() {
    assert_eq!(decode("/%FF"), Err(IndexError::DecodingError));
    assert_eq!(decode("/ok/%C3"), Err(IndexError::DecodingError));
    assert_eq!(decode("/%C3/%A9"), Err(IndexError::DecodingError));
    assert_eq!(decode("/%ED%A0%80"), Err(IndexError::DecodingError));
}

#[test]
fn decode_does_not_forbid_dots() {
    assert_eq!(decode("/../etc/passwd"), Ok(segments(&["..", "etc", "passwd"])));
    assert_eq!(decode("/./a"), Ok(segments(&[".", "a"])));
}

#[test]
fn decode_gives_back_what_encode_was_given() {
    let cases: Vec<Vec<String>> = vec![
        Vec::new(),
        segments(&["a"]),
        segments(&["a", "b", "c"]),
        segments(&["foo bar?", "100%", "a/b"]),
        segments(&["\u{e9}t\u{e9}", "\u{65e5}\u{672c}\u{8a9e}", "\u{1f600}"]),
        segments(&["%41", "%", "%%", "+"]),
        segments(&["..", ".", "..."]),
        segments(&["\u{0}", "\u{7f}", " "]),
    ];
    for case in cases {
        assert_eq!(decode(&encode(&case, false, false)), Ok(copy_segments(&case)));
        assert_eq!(decode(&encode(&case, true, true)), Ok(copy_segments(&case)));
        assert_eq!(decode(&encode(&case, false, true)), Ok(copy_segments(&case)));
        assert_eq!(decode(&encode(&case, true, false)), Ok(copy_segments(&case)));
    }
}

#[test]
fn decode_loses_an_empty_segment() {
    let path = segments(&["a", "", "b"]);
    assert_eq!(decode(&encode(&path, false, false)), Ok(segments(&["a", "b"])));
}

#[test]
fn traversal_is_refused() {
    assert_eq!(check_traversal(&segments(&["..", "etc", "passwd"])), Err(IndexError::PathEscape));
    assert_eq!(check_traversal(&segments(&["a", "..", "b"])), Err(IndexError::PathEscape));
    assert_eq!(check_traversal(&segments(&["a", "."])), Err(IndexError::PathEscape));
    assert_eq!(check_traversal(&segments(&["a/../../etc"])), Err(IndexError::PathEscape));
    assert_eq!(check_traversal(&segments(&["/etc"])), Err(IndexError::PathEscape));
    assert_eq!(check_traversal(&segments(&["a\\..\\b"])), Err(IndexError::PathEscape));
    assert_eq!(check_traversal(&segments(&["a", ""])), Err(IndexError::PathEscape));
}

#[test]
fn encoded_traversal_is_refused_after_decoding() {
    let decoded = decode("/%2E%2E/etc/passwd").unwrap();
    assert_eq!(decoded, segments(&["..", "etc", "passwd"]));
    assert_eq!(check_traversal(&decoded), Err(IndexError::PathEscape));
    let slashed = decode("/a%2F..%2F..%2Fetc").unwrap();
    assert_eq!(check_traversal(&slashed), Err(IndexError::PathEscape));
}

#[test]
fn plain_names_pass_the_traversal_check() {
    assert_eq!(check_traversal(&Vec::new()), Ok(()));
    assert_eq!(check_traversal(&segments(&["docs", "img"])), Ok(()));
    assert_eq!(check_traversal(&segments(&["...", ".hidden", "a..b", ".. "])), Ok(()));
    assert_eq!(check_traversal(&segments(&["\u{e9}t\u{e9}", "a b"])), Ok(()));
}

#[test]
fn names_child_tells_names_from_steps() {
    assert!(names_child("a"));
    assert!(names_child("..."));
    assert!(!names_child(""));
    assert!(!names_child("."));
    assert!(!names_child(".."));
    assert!(!names_child("a/b"));
    assert!(!names_child("a\\b"));
}

#[test]
fn copy_segments_copies() {
    let path = segments(&["a", "b c"]);
    assert_eq!(copy_segments(&path), path);
    assert_eq!(copy_segments(&Vec::new()), Vec::<String>::new());
}

#[test]
fn request_segments_decodes_and_checks() {
    assert_eq!(request_segments("/docs/my%20img/"), Ok(segments(&["docs", "my img"])));
    assert_eq!(request_segments("/"), Ok(Vec::new()));
    assert_eq!(request_segments("/../etc/passwd"), Err(IndexError::PathEscape));
    assert_eq!(request_segments("/a/%2e%2E/b"), Err(IndexError::PathEscape));
    assert_eq!(request_segments("/a/./b"), Err(IndexError::PathEscape));
    assert_eq!(request_segments("/a%2Fb"), Err(IndexError::PathEscape));
    assert_eq!(request_segments("/a%5Cb"), Err(IndexError::PathEscape));
    assert_eq!(request_segments("/%FF"), Err(IndexError::DecodingError));
    assert_eq!(request_segments("/../%FF"), Err(IndexError::DecodingError));
    assert_eq!(request_segments("/%"), Err(IndexError::DecodingError));
}

#[test]
fn every_ascii_character_is_encoded_by_the_rule() {
    for b in 0u8..=0x7F {
        let c = b as char;
        let in_the_set = b < 0x20 || b == 0x7F || " \"#<>`?{}%/".contains(c);
        let expected = if in_the_set {
            format!("%{:02X}", b)
        } else {
            c.to_string()
        };
        assert_eq!(encode(&vec![c.to_string()], false, false), expected);
    }
}

#[test]
fn every_character_comes_back() {
    let mut code: u32 = 0;
    while code < 0x11_0000 {
        if let Some(c) = char::from_u32(code) {
            let segment = vec![format!("a{}b", c)];
            assert_eq!(decode(&encode(&segment, false, false)), Ok(copy_segments(&segment)));
        }
        code += if code < 0x3000 { 1 } else { 257 };
    }
}

#[test]
fn every_escape_is_decoded_by_the_rule() {
    for b in 0u16..=0xFF {
        let expected = if b < 0x80 {
            Ok(vec![((b as u8) as char).to_string()])
        } else {
            Err(IndexError::DecodingError)
        };
        assert_eq!(decode(&format!("/%{:02X}", b)), expected);
        assert_eq!(decode(&format!("/%{:02x}", b)), expected);
    }
}

#[test]
fn escapes_of_two_bytes_are_decoded_together() {
    for code in 0x80u32..0x800 {
        let c = char::from_u32(code).unwrap();
        let mut bytes = [0u8; 4];
        let raw: String = c.encode_utf8(&mut bytes).bytes().map(|b| format!("%{:02X}", b)).collect();
        assert_eq!(decode(&raw), Ok(vec![c.to_string()]));
    }
}
