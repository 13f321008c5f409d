use urlencoding::BoundedSink;
use urlencoding::Encoded;
use urlencoding::VecSink;
use urlencoding::encode;
use urlencoding::encode_binary;
use urlencoding::encode_exclude;

/// Reverse of `%XX` -> byte, passthrough for everything else.
fn reference_decode(s: &str) -> Vec<u8> {
    let bytes = s.as_bytes();
    let mut out = Vec::new();
    let mut i = 0;
    while i < bytes.len() {
        let b = bytes[i];
        let hex = |d: u8| -> Option<u8> {
            match d {
                0x30..=0x39 => Some(d - 0x30),
                0x41..=0x46 => Some(d - 0x41 + 10),
                _ => None,
            }
        };
        if b == b'%' && i + 2 < bytes.len() {
            if let (Some(hi), Some(lo)) = (hex(bytes[i + 1]), hex(bytes[i + 2])) {
                out.push(hi * 16 + lo);
                i += 3;
                continue;
            }
        }
        out.push(b);
        i += 1;
    }
    out
}

#[test]
fn encodes_exclamation_mark() {
    assert_eq!(encode("hello!").as_str(), "hello%21");
}

#[test]
fn encodes_space() {
    assert_eq!(encode("a b").as_str(), "a%20b");
}

#[test]
fn safe_input_is_borrowed_unchanged() {
    let r = encode("safe-chars_.~");
    assert!(r.is_borrowed());
    assert_eq!(r.as_str(), "safe-chars_.~");
}

#[test]
fn empty_input_is_borrowed() {
    let r = encode("");
    assert!(r.is_borrowed());
    assert_eq!(r.as_str(), "");
}

#[test]
fn unsafe_input_is_owned() {
    let r = encode("a b");
    assert!(!r.is_borrowed());
}

#[test]
fn exclusion_keeps_slash() {
    let r = encode_exclude("/path/to/resource", &['/']);
    assert!(r.is_borrowed());
    assert_eq!(r.as_str(), "/path/to/resource");
}

#[test]
fn exclusion_applies_everywhere() {
    let r = encode_exclude("a:b/c d", &['/', ':']);
    assert_eq!(r.as_str(), "a:b/c%20d");
}

#[test]
fn exclusion_of_non_ascii_character_does_not_widen() {
    // Only ASCII characters can widen the safe set: the output stays ASCII,
    // so the two UTF-8 bytes of 'é' are escaped all the same.
    let r = encode_exclude("é", &['é']);
    assert_eq!(r.as_str(), "%C3%A9");
}

#[test]
fn encodes_binary_bytes() {
    assert_eq!(encode_binary(&[0xFF, 0x00, b'A']).as_str(), "%FF%00A");
}

#[test]
fn round_trips_every_byte_value() {
    let all: Vec<u8> = (0u8..=255).collect();
    let r = encode_binary(&all);
    assert_eq!(reference_decode(r.as_str()), all);
}

#[test]
fn round_trips_text() {
    for text in ["hello!", "a b", "100% true", "déjà vu", "\u{7f}\u{0}"] {
        let r = encode(text);
        assert_eq!(reference_decode(r.as_str()), text.as_bytes());
    }
}

#[test]
fn output_uses_allowed_characters_only() {
    let all: Vec<u8> = (0u8..=255).collect();
    let r = encode_binary(&all);
    let out = r.as_str().as_bytes();
    for (i, &b) in out.iter().enumerate() {
        let safe = b.is_ascii_alphanumeric() || matches!(b, b'-' | b'.' | b'_' | b'~');
        assert!(safe || b == b'%');
        if b == b'%' {
            assert!(i + 2 < out.len());
            let upper_hex = |d: u8| matches!(d, b'0'..=b'9' | b'A'..=b'F');
            assert!(upper_hex(out[i + 1]));
            assert!(upper_hex(out[i + 2]));
        }
    }
}

#[test]
fn encoding_twice_differs_when_input_has_unsafe_byte() {
    for text in ["a b", "hello!", "100%"] {
        let once = encode(text).into_string();
        let twice = encode(&once).into_string();
        assert_ne!(twice, once);
    }
}

#[test]
fn wrapper_to_str_encodes() {
    assert_eq!(Encoded::str("hello!").to_str().as_str(), "hello%21");
}

#[test]
fn wrapper_new_takes_bytes() {
    assert_eq!(Encoded::new(b"100% safe").to_string(), "100%25%20safe");
}

#[test]
fn wrapper_to_str_is_zero_copy_on_safe_input() {
    assert!(Encoded::str("plain").to_str().is_borrowed());
}

#[test]
fn append_to_grows_string_in_place() {
    let mut buffer = String::from("x=");
    Encoded::str("a b").append_to(&mut buffer);
    assert_eq!(buffer, "x=a%20b");
}

#[test]
fn streaming_write_reaches_the_sink() {
    let mut sink = VecSink::new();
    let r = Encoded::str("<tag>").write(&mut sink);
    assert!(r.is_ok());
    assert_eq!(sink.bytes, b"%3Ctag%3E".to_vec());
}

#[test]
fn streaming_write_of_safe_input_forwards_it() {
    let mut sink = VecSink::new();
    assert!(Encoded::str("plain").write(&mut sink).is_ok());
    assert_eq!(sink.bytes, b"plain".to_vec());
}

#[test]
fn streaming_write_of_empty_input_succeeds() {
    let mut sink = VecSink::new();
    assert_eq!(Encoded::str("").write(&mut sink), Ok(()));
    assert!(sink.bytes.is_empty());
}

#[test]
fn full_sink_fails_the_write() {
    let mut sink = BoundedSink::new(3);
    assert_eq!(Encoded::str("<tag>").write(&mut sink), Err(()));
}

#[test]
fn large_enough_bounded_sink_accepts_the_write() {
    let mut sink = BoundedSink::new(9);
    assert_eq!(Encoded::str("<tag>").write(&mut sink), Ok(()));
    assert_eq!(sink.bytes, b"%3Ctag%3E".to_vec());
}

#[test]
fn into_string_copies_borrowed_text() {
    assert_eq!(encode("plain").into_string(), String::from("plain"));
}

#[test]
fn escapes_use_uppercase_hex() {
    assert_eq!(encode("\u{7f}").as_str(), "%7F");
    assert_eq!(encode_binary(&[0xab, 0xcd]).as_str(), "%AB%CD");
}
