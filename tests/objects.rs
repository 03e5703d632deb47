use std::io::Write;

use flate2::write::ZlibEncoder;
use flate2::Compression;
use minigit::digest::to_hex;
use minigit::object::{hash_to_path, Kind, Object, ObjectError};

fn hex_of(id: &[u8; 20]) -> String {
    String::from_utf8(to_hex(id)).unwrap()
}

fn zlib(bytes: &[u8]) -> Vec<u8> {
    let mut e = ZlibEncoder::new(Vec::new(), Compression::default());
    e.write_all(bytes).unwrap();
    e.finish().unwrap()
}

#[test]
fn empty_blob_has_known_identifier() {
    let (id, _) = Object::from_bytes(Kind::Blob, &[]).compress_and_hash().unwrap();
    assert_eq!(hex_of(&id), "e69de29bb2d1d6434b8b29ae775ad8c2e48c5391");
}

#[test]
fn hello_blob_has_known_identifier() {
    let (id, _) = Object::from_bytes(Kind::Blob, b"hello\n").compress_and_hash().unwrap();
    assert_eq!(hex_of(&id), "ce013625030ba8dba906f756967f9e9ca394464a");
}

#[test]
fn empty_tree_has_known_identifier() {
    let (id, _) = Object::from_bytes(Kind::Tree, &[]).compress_and_hash().unwrap();
    assert_eq!(hex_of(&id), "4b825dc642cb6eb9a060e54bf8d69288fbee4904");
}

#[test]
fn writing_twice_gives_same_identifier() {
    let a = Object::from_bytes(Kind::Commit, b"same payload").compress_and_hash().unwrap();
    let b = Object::from_bytes(Kind::Commit, b"same payload").compress_and_hash().unwrap();
    assert_eq!(a.0, b.0);
    assert_eq!(a.1, b.1);
    let c = Object::from_bytes(Kind::Commit, b"other payload").compress_and_hash().unwrap();
    assert_ne!(a.0, c.0);
}

#[test]
fn framing_puts_header_before_payload() {
    let o = Object::from_bytes(Kind::Blob, b"abc");
    assert_eq!(o.framed(), b"blob 3\0abc".to_vec());
    let t = Object::from_bytes(Kind::Tree, &[0u8; 12]);
    assert_eq!(&t.framed()[..8], b"tree 12\0");
    let c = Object::from_bytes(Kind::Commit, b"");
    assert_eq!(c.framed(), b"commit 0\0".to_vec());
}

#[test]
fn stored_bytes_inflate_to_framed_stream() {
    let o = Object::from_bytes(Kind::Blob, b"xyz");
    let (_, stored) = o.compress_and_hash().unwrap();
    assert_eq!(stored, zlib(b"blob 3\0xyz"));
}

#[test]
fn round_trip_every_kind() {
    let payloads: [&[u8]; 4] = [b"", b"hello world", &[0u8, 1, 2, 255, 0, 10], b"line\nline\n"];
    for kind in [Kind::Blob, Kind::Tree, Kind::Commit] {
        for p in payloads {
            let (_, stored) = Object::from_bytes(kind, p).compress_and_hash().unwrap();
            let back = Object::from_stored(&stored).unwrap();
            assert_eq!(*back.kind(), kind);
            assert_eq!(back.size(), p.len());
            assert_eq!(back.data(), p);
        }
    }
}

#[test]
fn nonsense_header_is_format_error() {
    assert_eq!(Object::from_frame(b"nonsense").unwrap_err(), ObjectError::Format);
    assert_eq!(Object::from_stored(&zlib(b"nonsense")).unwrap_err(), ObjectError::Format);
}

#[test]
fn unknown_kind_is_format_error() {
    assert_eq!(Object::from_frame(b"tag 3\0abc").unwrap_err(), ObjectError::Format);
    assert_eq!(Object::from_frame(b"blobx 3\0abc").unwrap_err(), ObjectError::Format);
    assert_eq!(Object::from_frame(b"nonsense 1\0a").unwrap_err(), ObjectError::Format);
}

#[test]
fn bad_size_is_format_error() {
    assert_eq!(Object::from_frame(b"blob x\0").unwrap_err(), ObjectError::Format);
    assert_eq!(Object::from_frame(b"blob \0").unwrap_err(), ObjectError::Format);
    assert_eq!(Object::from_frame(b"blob -1\0").unwrap_err(), ObjectError::Format);
    assert_eq!(Object::from_frame(b"blob 1 2\0ab").unwrap_err(), ObjectError::Format);
    assert_eq!(Object::from_frame(b"blob\0").unwrap_err(), ObjectError::Format);
    assert_eq!(
        Object::from_frame(b"blob 99999999999999999999999\0").unwrap_err(),
        ObjectError::Format
    );
}

#[test]
fn missing_nul_within_lookahead_is_format_error() {
    let mut long = b"blob 1".to_vec();
    long.extend(std::iter::repeat(b'0').take(80));
    long.push(0);
    assert_eq!(Object::from_frame(&long).unwrap_err(), ObjectError::Format);
}

#[test]
fn truncated_payload_is_format_error() {
    assert_eq!(Object::from_frame(b"blob 5\0abc").unwrap_err(), ObjectError::Format);
}

#[test]
fn trailing_bytes_are_not_read() {
    let o = Object::from_frame(b"blob 3\0abcdef").unwrap();
    assert_eq!(o.data(), b"abc");
    assert_eq!(o.size(), 3);
    let z = Object::from_frame(b"blob 007\0abcdefgh").unwrap();
    assert_eq!(z.size(), 7);
}

#[test]
fn corrupt_compression_is_decode_error() {
    assert_eq!(Object::from_stored(b"not zlib at all").unwrap_err(), ObjectError::Decode);
    let mut cut = zlib(b"blob 11\0hello world");
    cut.truncate(cut.len() / 2);
    assert_eq!(Object::from_stored(&cut).unwrap_err(), ObjectError::Decode);
}

#[test]
fn object_path_splits_hex_identifier() {
    let (id, _) = Object::from_bytes(Kind::Blob, &[]).compress_and_hash().unwrap();
    let p = hash_to_path(b".git", &id);
    assert_eq!(
        String::from_utf8(p).unwrap(),
        ".git/objects/e6/9de29bb2d1d6434b8b29ae775ad8c2e48c5391"
    );
}

#[test]
fn kind_names_parse_back() {
    for k in [Kind::Blob, Kind::Tree, Kind::Commit] {
        let n = k.name();
        assert_eq!(Kind::from_name(&n, 0, n.len()), Some(k));
    }
    assert_eq!(Kind::from_name(b"xblobx", 1, 5), Some(Kind::Blob));
    assert_eq!(Kind::from_name(b"tag", 0, 3), None);
    assert_eq!(Kind::Commit.name(), b"commit".to_vec());
}

#[test]
fn parse_header_gives_payload_start() {
    assert_eq!(minigit::frame::parse_header(b"tree 42\0rest"), Ok((Kind::Tree, 42, 8)));
}

#[test]
fn decimal_rendering() {
    let mut out = b"n=".to_vec();
    minigit::decimal::push_decimal(&mut out, 1234567890);
    assert_eq!(out, b"n=1234567890".to_vec());
    let mut zero = Vec::new();
    minigit::decimal::push_decimal(&mut zero, 0);
    assert_eq!(zero, b"0".to_vec());
    let mut big = Vec::new();
    minigit::decimal::push_decimal(&mut big, u64::MAX as u128);
    assert_eq!(big, b"18446744073709551615".to_vec());
}
