use git_objects::error::Error;
use git_objects::zlib::{compress, decompress};
use std::io::Read;

#[test]
fn decompress_inverts_compress() {
    let inputs: Vec<Vec<u8>> = vec![
        Vec::new(),
        b"x".to_vec(),
        b"blob 11\0hello world".to_vec(),
        vec![0u8; 100_000],
        (0..=255u8).cycle().take(70_000).collect(),
    ];
    for input in inputs {
        let stream = compress(&input);
        assert_eq!(decompress(&stream), Ok(input));
    }
}

#[test]
fn compress_writes_a_zlib_stream() {
    let stream = compress(b"blob 11\0hello world");
    assert_ne!(stream, b"blob 11\0hello world".to_vec());
    assert_eq!(stream[0], 0x78);
    let mut out = Vec::new();
    flate2::read::ZlibDecoder::new(&stream[..]).read_to_end(&mut out).unwrap();
    assert_eq!(out, b"blob 11\0hello world".to_vec());
}

#[test]
fn compress_makes_repetitive_input_smaller() {
    let input = vec![b'a'; 10_000];
    assert!(compress(&input).len() < 200);
}

#[test]
fn decompress_reads_streams_of_other_writers() {
    // `blob 11\0hello world` as zlib writes it at its default level.
    let stream: [u8; 27] = [
        0x78, 0x9c, 0x4b, 0xca, 0xc9, 0x4f, 0x52, 0x30, 0x34, 0x64, 0xc8, 0x48, 0xcd, 0xc9, 0xc9,
        0x57, 0x28, 0xcf, 0x2f, 0xca, 0x49, 0x01, 0x00, 0x3d, 0x7b, 0x06, 0x7e,
    ];
    assert_eq!(decompress(&stream), Ok(b"blob 11\0hello world".to_vec()));
}

#[test]
fn decompress_refuses_a_truncated_stream() {
    let stream = compress(b"blob 11\0hello world");
    for keep in 0..stream.len() {
        assert_eq!(decompress(&stream[..keep]), Err(Error::CorruptObject));
    }
}

#[test]
fn decompress_refuses_what_is_no_stream() {
    assert_eq!(decompress(b""), Err(Error::CorruptObject));
    assert_eq!(decompress(b"blob 11\0hello world"), Err(Error::CorruptObject));
    let mut stream = compress(b"blob 11\0hello world");
    stream[0] = 0x00;
    assert_eq!(decompress(&stream), Err(Error::CorruptObject));
}

#[test]
fn decompress_refuses_a_damaged_checksum() {
    let mut stream = compress(b"blob 11\0hello world");
    let last = stream.len() - 1;
    stream[last] ^= 0xff;
    assert_eq!(decompress(&stream), Err(Error::CorruptObject));
}
