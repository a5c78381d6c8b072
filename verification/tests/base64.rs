//! Base64, there and back.
use miniraft::base64::{decode, encode, DecodeError};

// cf. https://datatracker.ietf.org/doc/html/rfc4648#section-10
#[test]
fn test_encode_rfc4648_vectors() {
    let vectors = [
        (b"" as &[u8], ""),
        (b"f", "Zg=="),
        (b"fo", "Zm8="),
        (b"foo", "Zm9v"),
        (b"foob", "Zm9vYg=="),
        (b"fooba", "Zm9vYmE="),
        (b"foobar", "Zm9vYmFy"),
    ];

    for (input, expected) in vectors {
        assert_eq!(encode(input), expected, "failed on input: {:?}", input);
    }
}

#[test]
fn test_encode_longer_sentence() {
    let input = b"Lorem ipsum dolor sit amet, consectetur adipiscing elit, sed do eiusmod tempor incididunt ut labore et dolore magna aliqua. Ut enim ad minim veniam, quis nostrud exercitation ullamco laboris nisi ut aliquip ex ea commodo consequat. Duis aute irure dolor in reprehenderit in voluptate velit esse cillum dolore eu fugiat nulla pariatur. Excepteur sint occaecat cupidatat non proident, sunt in culpa qui officia deserunt mollit anim id est laborum.";
    let expected = "TG9yZW0gaXBzdW0gZG9sb3Igc2l0IGFtZXQsIGNvbnNlY3RldHVyIGFkaXBpc2NpbmcgZWxpdCwgc2VkIGRvIGVpdXNtb2QgdGVtcG9yIGluY2lkaWR1bnQgdXQgbGFib3JlIGV0IGRvbG9yZSBtYWduYSBhbGlxdWEuIFV0IGVuaW0gYWQgbWluaW0gdmVuaWFtLCBxdWlzIG5vc3RydWQgZXhlcmNpdGF0aW9uIHVsbGFtY28gbGFib3JpcyBuaXNpIHV0IGFsaXF1aXAgZXggZWEgY29tbW9kbyBjb25zZXF1YXQuIER1aXMgYXV0ZSBpcnVyZSBkb2xvciBpbiByZXByZWhlbmRlcml0IGluIHZvbHVwdGF0ZSB2ZWxpdCBlc3NlIGNpbGx1bSBkb2xvcmUgZXUgZnVnaWF0IG51bGxhIHBhcmlhdHVyLiBFeGNlcHRldXIgc2ludCBvY2NhZWNhdCBjdXBpZGF0YXQgbm9uIHByb2lkZW50LCBzdW50IGluIGN1bHBhIHF1aSBvZmZpY2lhIGRlc2VydW50IG1vbGxpdCBhbmltIGlkIGVzdCBsYWJvcnVtLg==";

    assert_eq!(encode(input), expected);
}

#[test]
fn test_encode_binary_data() {
    // Null byte, high byte, etc.
    let input = &[0u8, 255, 127, 63, 10];
    let expected = "AP9/Pwo=";
    assert_eq!(encode(input), expected);
}

#[test]
fn test_decode_rfc4648_vectors() {
    let vectors = [
        ("", b"" as &[u8]),
        ("Zg==", b"f"),
        ("Zm8=", b"fo"),
        ("Zm9v", b"foo"),
        ("Zm9vYg==", b"foob"),
        ("Zm9vYmE=", b"fooba"),
        ("Zm9vYmFy", b"foobar"),
    ];

    for (input, expected) in vectors {
        let decoded = decode(input).expect("should decode valid input");
        assert_eq!(decoded, expected, "failed on input: {:?}", input);
    }
}

#[test]
fn test_decode_binary_data() {
    let input = "AP9/Pwo=";
    let expected = &[0u8, 255, 127, 63, 10];
    let decoded = decode(input).expect("should decode binary data");
    assert_eq!(decoded, expected);
}

#[test]
fn test_decode_invalid_length() {
    assert_eq!(decode("A"), Err(DecodeError::InvalidLength));
    assert_eq!(decode("AA"), Err(DecodeError::InvalidLength));
    assert_eq!(decode("AAA"), Err(DecodeError::InvalidLength));
    assert_eq!(decode("Zm9vY"), Err(DecodeError::InvalidLength));
}

#[test]
fn test_decode_invalid_characters() {
    assert_eq!(decode("Zm$v"), Err(DecodeError::InvalidByte(2, b'$')));
}

#[test]
fn test_decode_invalid_padding_placement() {
    assert_eq!(decode("Z=9v"), Err(DecodeError::InvalidByte(1, b'=')));
    assert_eq!(decode("Zm=v"), Err(DecodeError::InvalidPadding));
}

#[test]
fn test_encode_decode_round_trip() {
    let input = b"Lorem ipsum dolor sit amet, consectetur adipiscing elit, sed do eiusmod tempor incididunt ut labore et dolore magna aliqua. Ut enim ad minim veniam, quis nostrud exercitation ullamco laboris nisi ut aliquip ex ea commodo consequat. Duis aute irure dolor in reprehenderit in voluptate velit esse cillum dolore eu fugiat nulla pariatur. Excepteur sint occaecat cupidatat non proident, sunt in culpa qui officia deserunt mollit anim id est laborum.";

    let encoded = encode(input);
    let decoded = decode(&encoded).expect("round trip failed");
    assert_eq!(input.as_slice(), decoded.as_slice());
}
