use git_objects::digest::{fingerprint, Fingerprint};
use git_objects::error::Error;
use git_objects::layout::{decode, encode, encode_blob, encode_tree};
use git_objects::object::{is_valid_name, Entry, Mode, Object};
use git_objects::text::push_radix;

fn target(fill: u8) -> Fingerprint {
    Fingerprint::from_bytes([fill; 20])
}

fn entry(mode: Mode, name: &str, fill: u8) -> Entry {
    Entry { mode, name: name.as_bytes().to_vec(), target: target(fill) }
}

#[test]
fn blob_layout_is_tag_length_zero_content() {
    let object = Object::Blob { content: b"hello world".to_vec() };
    assert_eq!(encode(&object), b"blob 11\0hello world".to_vec());
    assert_eq!(encode_blob(b"hello world"), b"blob 11\0hello world".to_vec());
}

#[test]
fn empty_blob_layout() {
    assert_eq!(encode_blob(b""), b"blob 0\0".to_vec());
    assert_eq!(decode(b"blob 0\0"), Ok(Object::Blob { content: Vec::new() }));
}

#[test]
fn blob_content_is_stored_verbatim() {
    let content: Vec<u8> = (0..=255u8).collect();
    let bytes = encode_blob(&content);
    assert_eq!(&bytes[..9], b"blob 256\0");
    assert_eq!(&bytes[9..], &content[..]);
    assert_eq!(decode(&bytes), Ok(Object::Blob { content }));
}

#[test]
fn hello_world_blob_has_the_well_known_fingerprint() {
    let hex = fingerprint(&encode_blob(b"hello world")).to_hex();
    assert_eq!(hex, "95d09f2b10159347eece71399a7e2e907ea3df4f");
    assert!(hex.starts_with("95d09f2b10159347eece71399a7e2e907ea3df4"));
}

#[test]
fn tree_layout_is_mode_space_name_zero_target() {
    let entries = vec![entry(Mode::RegularFile, "a.txt", 0x11), entry(Mode::Directory, "b", 0x22)];
    let mut expected = b"tree 61\0100644 a.txt\0".to_vec();
    expected.extend_from_slice(&[0x11; 20]);
    expected.extend_from_slice(b"40000 b\0");
    expected.extend_from_slice(&[0x22; 20]);
    assert_eq!(encode_tree(&entries), expected);
    assert_eq!(encode(&Object::Tree { entries }), expected);
}

#[test]
fn every_mode_has_its_octal_text() {
    let entries = vec![
        entry(Mode::RegularFile, "a", 1),
        entry(Mode::ExecutableFile, "b", 2),
        entry(Mode::Symlink, "c", 3),
        entry(Mode::Directory, "d", 4),
    ];
    let bytes = encode_tree(&entries);
    let body = &bytes[b"tree 115\0".len()..];
    assert_eq!(&body[..9], b"100644 a\0");
    assert_eq!(&body[29..38], b"100755 b\0");
    assert_eq!(&body[58..67], b"120000 c\0");
    assert_eq!(&body[87..95], b"40000 d\0");
}

#[test]
fn mode_bits_round_trip() {
    for mode in [Mode::RegularFile, Mode::ExecutableFile, Mode::Symlink, Mode::Directory] {
        assert_eq!(Mode::from_bits(mode.to_bits()), Some(mode));
    }
    assert_eq!(Mode::RegularFile.to_bits(), 0o100644);
    assert_eq!(Mode::ExecutableFile.to_bits(), 0o100755);
    assert_eq!(Mode::Symlink.to_bits(), 0o120000);
    assert_eq!(Mode::Directory.to_bits(), 0o40000);
    assert_eq!(Mode::from_bits(0), None);
    assert_eq!(Mode::from_bits(0o100600), None);
}

#[test]
fn empty_tree_has_the_well_known_fingerprint() {
    let bytes = encode_tree(&Vec::new());
    assert_eq!(bytes, b"tree 0\0".to_vec());
    assert_eq!(fingerprint(&bytes).to_hex(), "4b825dc642cb6eb9a060e54bf8d69288fbee4904");
    assert_eq!(decode(&bytes), Ok(Object::Tree { entries: Vec::new() }));
}

#[test]
fn decode_inverts_encode_for_blobs() {
    for content in [&b""[..], b"x", b"hello world", b"\0\0\0", b"blob 3\0abc"] {
        let object = Object::Blob { content: content.to_vec() };
        assert_eq!(decode(&encode(&object)), Ok(object));
    }
}

#[test]
fn decode_inverts_encode_for_trees() {
    let object = Object::Tree {
        entries: vec![
            entry(Mode::RegularFile, "a.txt", 0x00),
            entry(Mode::ExecutableFile, "build.sh", 0x20),
            entry(Mode::Symlink, "link to it", 0xff),
            entry(Mode::Directory, "src", 0x0a),
        ],
    };
    assert_eq!(decode(&encode(&object)), Ok(object));
}

#[test]
fn decode_keeps_the_order_of_the_entries() {
    let object = Object::Tree {
        entries: vec![entry(Mode::RegularFile, "z", 1), entry(Mode::RegularFile, "a", 2)],
    };
    assert_eq!(decode(&encode(&object)), Ok(object));
}

#[test]
fn decode_refuses_an_unknown_tag() {
    assert_eq!(decode(b""), Err(Error::UnknownObjectKind));
    assert_eq!(decode(b"blob"), Err(Error::UnknownObjectKind));
    assert_eq!(decode(b"commit 3\0abc"), Err(Error::UnknownObjectKind));
    assert_eq!(decode(b"Blob 3\0abc"), Err(Error::UnknownObjectKind));
    assert_eq!(decode(b"blob\t3\0abc"), Err(Error::UnknownObjectKind));
    assert_eq!(decode(b"tag 0\0"), Err(Error::UnknownObjectKind));
}

#[test]
fn decode_refuses_a_wrong_length() {
    assert_eq!(decode(b"blob 4\0abc"), Err(Error::LengthMismatch));
    assert_eq!(decode(b"blob 2\0abc"), Err(Error::LengthMismatch));
    assert_eq!(decode(b"blob 03\0abc"), Err(Error::LengthMismatch));
    assert_eq!(decode(b"blob \0"), Err(Error::LengthMismatch));
    assert_eq!(decode(b"blob x\0"), Err(Error::LengthMismatch));
    assert_eq!(decode(b"blob 3"), Err(Error::LengthMismatch));
    assert_eq!(decode(b"blob 3abc"), Err(Error::LengthMismatch));
    assert_eq!(decode(b"blob "), Err(Error::LengthMismatch));
    assert_eq!(decode(b"tree 1\0"), Err(Error::LengthMismatch));
    assert_eq!(decode(b"tree 00\0"), Err(Error::LengthMismatch));
}

#[test]
fn decode_refuses_a_truncated_entry() {
    let whole = encode_tree(&vec![entry(Mode::RegularFile, "a.txt", 0x11)]);
    let body = &whole[b"tree 33\0".len()..];
    for keep in 1..body.len() {
        let mut bytes = Vec::new();
        bytes.extend_from_slice(b"tree ");
        push_radix(&mut bytes, keep, 10);
        bytes.push(0);
        bytes.extend_from_slice(&body[..keep]);
        assert_eq!(decode(&bytes), Err(Error::TruncatedEntry), "kept {keep} bytes");
    }
}

#[test]
fn decode_refuses_a_truncated_last_entry() {
    let whole = encode_tree(&vec![
        entry(Mode::RegularFile, "a.txt", 0x11),
        entry(Mode::Directory, "b", 0x22),
    ]);
    let body = &whole[b"tree 61\0".len()..];
    let mut bytes = b"tree 60\0".to_vec();
    bytes.extend_from_slice(&body[..60]);
    assert_eq!(decode(&bytes), Err(Error::TruncatedEntry));
}

#[test]
fn decode_refuses_an_unknown_mode() {
    for mode in ["100600", "0100644", "040000", "644", "", "10064x", "100644\0"] {
        let mut body = mode.as_bytes().to_vec();
        body.extend_from_slice(b" name\0");
        body.extend_from_slice(&[0x33; 20]);
        let mut bytes = b"tree ".to_vec();
        push_radix(&mut bytes, body.len(), 10);
        bytes.push(0);
        bytes.extend_from_slice(&body);
        assert_eq!(decode(&bytes), Err(Error::InvalidMode), "mode {mode:?}");
    }
}

#[test]
fn decode_reports_truncation_before_the_mode() {
    let mut bytes = b"tree 15\0".to_vec();
    bytes.extend_from_slice(b"999 name\0abcdef");
    assert_eq!(decode(&bytes), Err(Error::TruncatedEntry));
}

#[test]
fn decode_reports_the_first_bad_entry() {
    let mut body = b"999 a\0".to_vec();
    body.extend_from_slice(&[0x33; 20]);
    body.extend_from_slice(b"100644 cut");
    let mut bytes = b"tree ".to_vec();
    push_radix(&mut bytes, body.len(), 10);
    bytes.push(0);
    bytes.extend_from_slice(&body);
    assert_eq!(decode(&bytes), Err(Error::InvalidMode));
}

#[test]
fn decode_does_not_read_a_blob_as_entries() {
    let mut bytes = b"blob 29\0100644 a.txt\0".to_vec();
    bytes.extend_from_slice(&[0x11; 16]);
    match decode(&bytes) {
        Ok(Object::Blob { content }) => assert_eq!(content.len(), 29),
        other => panic!("not a blob: {other:?}"),
    }
}

#[test]
fn radix_writes_numbers_without_leading_zeros() {
    let cases: [(usize, u8, &str); 9] = [
        (0, 10, "0"),
        (7, 10, "7"),
        (10, 10, "10"),
        (1234567890, 10, "1234567890"),
        (0, 8, "0"),
        (8, 8, "10"),
        (0o100644, 8, "100644"),
        (0o40000, 8, "40000"),
        (5, 2, "101"),
    ];
    for (n, base, text) in cases {
        let mut out = b">".to_vec();
        push_radix(&mut out, n, base);
        assert_eq!(out, format!(">{text}").into_bytes());
    }
    let mut out = Vec::new();
    push_radix(&mut out, usize::MAX, 10);
    assert_eq!(out, format!("{}", usize::MAX).into_bytes());
}

#[test]
fn entry_names_are_checked() {
    assert!(is_valid_name(b"a.txt"));
    assert!(is_valid_name(b" "));
    assert!(is_valid_name(&[0xff, 0xfe]));
    assert!(!is_valid_name(b""));
    assert!(!is_valid_name(b"a/b"));
    assert!(!is_valid_name(b"/"));
    assert!(!is_valid_name(b"a\0"));
    assert!(Entry::new(Mode::RegularFile, b"ok".to_vec(), target(1)).is_some());
    assert_eq!(Entry::new(Mode::RegularFile, b"".to_vec(), target(1)), None);
    assert_eq!(Entry::new(Mode::RegularFile, b"a/b".to_vec(), target(1)), None);
    assert_eq!(
        Entry::new(Mode::Symlink, b"ok".to_vec(), target(9)),
        Some(Entry { mode: Mode::Symlink, name: b"ok".to_vec(), target: target(9) })
    );
}
