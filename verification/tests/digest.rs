use sniffers::digest::{digest_hex, hash_bytes};

/// SHA-256 of "hello", uppercase hex.
const HELLO_SHA256: &str = "2CF24DBA5FB0A30E26E83B2AC5B9E29E1B161E5C1FA7425E73043362938B9824";

/// SHA-256 of the empty byte string, uppercase hex.
const EMPTY_SHA256: &str = "E3B0C44298FC1C149AFBF4C8996FB92427AE41E4649B934CA495991B7852B855";

#[test]
fn digest_hex_known_value() {
    assert_eq!(digest_hex(b"hello"), HELLO_SHA256);
}

#[test]
fn digest_hex_empty_input() {
    assert_eq!(digest_hex(b""), EMPTY_SHA256);
}

#[test]
fn digest_deterministic_across_chunk_sizes() {
    let data = b"The quick brown fox jumps over the lazy dog, twice over.";
    let whole = hash_bytes(data, 4096);
    for chunk in [1usize, 2, 3, 7, 16, 1024] {
        assert_eq!(hash_bytes(data, chunk), whole);
    }
    assert_eq!(hash_bytes(b"hello", 1), hash_bytes(b"hello", 5));
}

#[test]
fn digest_hex_is_uppercase_hex_of_the_hash() {
    let hex = digest_hex(b"hello");
    let raw = hash_bytes(b"hello", 1024);
    assert_eq!(hex.len(), 64);
    assert_eq!(raw.len(), 32);
    for (i, b) in raw.iter().enumerate() {
        let digits = b"0123456789ABCDEF";
        assert_eq!(hex.as_bytes()[2 * i], digits[(b >> 4) as usize]);
        assert_eq!(hex.as_bytes()[2 * i + 1], digits[(b & 0x0f) as usize]);
    }
}

#[test]
fn digest_distinguishes_content() {
    assert_ne!(digest_hex(b"v1"), digest_hex(b"v2"));
}

