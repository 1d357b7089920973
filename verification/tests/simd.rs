//! Byte-level helpers.

use lb::lb_core::simd::{
    eq_ignore_ascii_case, eq_ignore_ascii_case_scalar, find_byte, host_without_port,
    lowercase_ascii_into, validate_utf8,
};

/// Deterministic xorshift so failures reproduce without a `rand` dev-dep.
struct Rng(u64);
impl Rng {
    fn next(&mut self) -> u64 {
        self.0 ^= self.0 << 13;
        self.0 ^= self.0 >> 7;
        self.0 ^= self.0 << 17;
        self.0
    }
    fn byte(&mut self) -> u8 {
        (self.next() >> 24) as u8
    }
}

#[test]
fn utf8_validation_matches_std() {
    assert_eq!(
        validate_utf8(b"/api/v1/\xf0\x9f\x9a\x80"),
        Some("/api/v1/🚀")
    );
    assert!(validate_utf8(&[0xff, 0xfe]).is_none());
}

#[test]
fn host_port_stripping() {
    assert_eq!(host_without_port("api.example.com:8443"), "api.example.com");
    assert_eq!(host_without_port("api.example.com"), "api.example.com");
    assert_eq!(host_without_port("[::1]:8080"), "[::1]");
    assert_eq!(host_without_port("[fe80::1]"), "[fe80::1]");
    assert_eq!(host_without_port(""), "");
}

#[test]
fn eq_ignore_case_known_vectors() {
    assert!(eq_ignore_ascii_case(b"Host", b"host"));
    assert!(eq_ignore_ascii_case(b"X-Forwarded-For", b"x-forwarded-for"));
    assert!(!eq_ignore_ascii_case(b"host", b"hosts"));
    assert!(eq_ignore_ascii_case(b"", b""));
    // '@' (0x40) and '[' (0x5B) bracket A-Z; they must not be folded.
    assert!(!eq_ignore_ascii_case(b"@", b"`"));
    assert!(!eq_ignore_ascii_case(b"[", b"{"));
}

/// The vector paths must agree with the scalar reference on every length
/// from 0 to 200, across all byte values including the A-Z boundaries.
#[test]
fn eq_ignore_case_differential_vs_scalar() {
    let mut rng = Rng(0x2545_F491_4F6C_DD1D);
    for len in 0..200usize {
        for _ in 0..40 {
            let a: Vec<u8> = (0..len).map(|_| rng.byte()).collect();
            // Half the trials compare against a case-flipped copy so the
            // "equal" branch is exercised, not just the early-out.
            let b: Vec<u8> = if rng.next() % 2 == 0 {
                a.iter()
                    .map(|&c| if c.is_ascii_alphabetic() { c ^ 0x20 } else { c })
                    .collect()
            } else {
                (0..len).map(|_| rng.byte()).collect()
            };
            assert_eq!(
                eq_ignore_ascii_case(&a, &b),
                eq_ignore_ascii_case_scalar(&a, &b),
                "len={len} a={a:?} b={b:?}"
            );
        }
    }
}

#[test]
fn lowercase_differential_vs_std() {
    let mut rng = Rng(0x9E37_79B9_7F4A_7C15);
    for len in 0..200usize {
        let src: Vec<u8> = (0..len).map(|_| rng.byte()).collect();
        let mut expected = src.clone();
        expected.make_ascii_lowercase();
        let mut dst = vec![0u8; len];
        let got = lowercase_ascii_into(&src, &mut dst).expect("dst is exactly len");
        assert_eq!(got, &expected[..], "len={len}");
    }
    // Too-small destination is reported, not truncated.
    let mut small = [0u8; 2];
    assert!(lowercase_ascii_into(b"abcdef", &mut small).is_none());
}

#[test]
fn find_byte_gives_the_first_place() {
    assert_eq!(find_byte(b':', b"a:b:c"), Some(1));
    assert_eq!(find_byte(b'x', b"a:b:c"), None);
    assert_eq!(find_byte(b'x', b""), None);
}
