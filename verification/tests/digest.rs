use git_objects::digest::{fingerprint, Fingerprint};

#[test]
fn empty_input_has_the_known_sha1() {
    assert_eq!(fingerprint(b"").to_hex(), "da39a3ee5e6b4b0d3255bfef95601890afd80709");
}

#[test]
fn abc_has_the_known_sha1() {
    assert_eq!(fingerprint(b"abc").to_hex(), "a9993e364706816aba3e25717850c26c9cd0d89d");
}

#[test]
fn fingerprint_is_the_same_on_every_call() {
    let first = fingerprint(b"some bytes");
    let second = fingerprint(b"some bytes");
    assert_eq!(first, second);
    assert!(first.same_as(&second));
    assert_ne!(first, fingerprint(b"some bytez"));
    assert!(!first.same_as(&fingerprint(b"some bytez")));
}

#[test]
fn hex_writes_high_half_first_in_lower_case() {
    let mut raw = [0u8; 20];
    raw[0] = 0xab;
    raw[1] = 0x0f;
    raw[19] = 0x9c;
    let fp = Fingerprint::from_bytes(raw);
    assert_eq!(fp.to_hex(), "ab0f00000000000000000000000000000000009c");
    assert_eq!(fp.to_hex_bytes(), b"ab0f00000000000000000000000000000000009c".to_vec());
    assert_eq!(fp.as_bytes(), &raw);
}

#[test]
fn from_hex_inverts_to_hex() {
    let fp = fingerprint(b"round trip");
    let hex = fp.to_hex();
    assert_eq!(hex.len(), 40);
    assert_eq!(Fingerprint::from_hex(&hex), Some(fp));
}

#[test]
fn from_hex_reads_each_digit() {
    let fp = Fingerprint::from_hex("0123456789abcdef0123456789abcdef01234567").unwrap();
    assert_eq!(
        fp.as_bytes(),
        &[
            0x01, 0x23, 0x45, 0x67, 0x89, 0xab, 0xcd, 0xef, 0x01, 0x23, 0x45, 0x67, 0x89, 0xab,
            0xcd, 0xef, 0x01, 0x23, 0x45, 0x67
        ]
    );
}

#[test]
fn from_hex_refuses_what_is_not_forty_lowercase_digits() {
    assert_eq!(Fingerprint::from_hex(""), None);
    assert_eq!(Fingerprint::from_hex("95d09f2b10159347eece71399a7e2e907ea3df4"), None);
    assert_eq!(Fingerprint::from_hex("95d09f2b10159347eece71399a7e2e907ea3df4f0"), None);
    assert_eq!(Fingerprint::from_hex("95D09F2B10159347EECE71399A7E2E907EA3DF4F"), None);
    assert_eq!(Fingerprint::from_hex("95d09f2b10159347eece71399a7e2e907ea3df4g"), None);
    assert_eq!(Fingerprint::from_hex("95d09f2b10159347eece71399a7e2e907ea3df4/"), None);
    assert_eq!(Fingerprint::from_hex("95d09f2b10159347eece71399a7e2e907ea3df\u{e9}"), None);
    assert_eq!(Fingerprint::from_hex("\u{4e2d}5d09f2b10159347eece71399a7e2e907ea3df4"), None);
}

#[test]
fn from_slice_takes_exactly_twenty_bytes() {
    assert_eq!(Fingerprint::from_slice(&[7u8; 19]), None);
    assert_eq!(Fingerprint::from_slice(&[7u8; 21]), None);
    let fp = Fingerprint::from_slice(&[7u8; 20]).unwrap();
    assert_eq!(fp.as_bytes(), &[7u8; 20]);
}
