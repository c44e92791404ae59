use gitwalk::error::Error;
use gitwalk::loose::{decode_commit, decode_loose, parse_loose, ObjectKind};
use gitwalk::object_id::ObjectId;
use miniz_oxide::deflate::compress_to_vec_zlib;

const LIMIT: usize = 1 << 20;

fn commit_body() -> Vec<u8> {
    b"tree 4b825dc642cb6eb9a060e54bf8d69288fbee4904\nauthor a <b> 100 +0000\ncommitter a <b> 200 +0000\n\nhello\n".to_vec()
}

fn framed(kind: &str, body: &[u8]) -> Vec<u8> {
    let mut raw = format!("{} {}\0", kind, body.len()).into_bytes();
    raw.extend_from_slice(body);
    raw
}

fn id(fill: u8) -> ObjectId {
    ObjectId::from_bytes(&[fill; 20]).unwrap()
}

#[test]
fn each_kind_of_header_is_read() {
    assert_eq!(parse_loose(b"blob 5\0hello"), Ok((ObjectKind::Blob, b"hello".to_vec())));
    assert_eq!(parse_loose(b"tree 0\0"), Ok((ObjectKind::Tree, Vec::new())));
    assert_eq!(parse_loose(b"tag 3\0a\0b"), Ok((ObjectKind::Tag, b"a\0b".to_vec())));
    assert_eq!(
        parse_loose(&framed("commit", &commit_body())),
        Ok((ObjectKind::Commit, commit_body()))
    );
}

#[test]
fn a_declared_size_that_is_wrong_is_corrupt() {
    assert_eq!(parse_loose(b"blob 4\0hello"), Err(Error::CorruptObject));
    assert_eq!(parse_loose(b"blob 6\0hello"), Err(Error::CorruptObject));
    assert_eq!(parse_loose(b"blob 0\0hello"), Err(Error::CorruptObject));
    assert_eq!(parse_loose(b"blob 1\0"), Err(Error::CorruptObject));
}

#[test]
fn a_malformed_header_is_corrupt() {
    for bad in [
        &b""[..],
        b"blob 5hello",
        b"blob5\0hello",
        b"blub 5\0hello",
        b"Blob 5\0hello",
        b"blob  5\0hello",
        b"blob 05\0hello",
        b"blob +5\0hello",
        b"blob 5 \0hello",
        b"blob \0",
        b" 5\0hello",
        b"commits 1\0a",
        b"\0blob 0",
    ] {
        assert_eq!(parse_loose(bad), Err(Error::CorruptObject));
    }
}

#[test]
fn a_compressed_object_is_inflated_and_split() {
    let file = compress_to_vec_zlib(&framed("blob", b"some file contents"), 6);
    assert_ne!(file, framed("blob", b"some file contents"));
    assert_eq!(
        decode_loose(&file, LIMIT),
        Ok((ObjectKind::Blob, b"some file contents".to_vec()))
    );
}

#[test]
fn an_uncompressed_object_is_not_a_loose_object_file() {
    assert_eq!(decode_loose(&framed("blob", b"hello"), LIMIT), Err(Error::CorruptObject));
}

#[test]
fn a_broken_stream_is_corrupt() {
    let file = compress_to_vec_zlib(&framed("blob", b"some file contents"), 6);
    assert_eq!(decode_loose(&file[..file.len() - 3], LIMIT), Err(Error::CorruptObject));
    assert_eq!(decode_loose(b"", LIMIT), Err(Error::CorruptObject));
    assert_eq!(decode_loose(b"not a zlib stream", LIMIT), Err(Error::CorruptObject));
    let mut flipped = file.clone();
    let last = flipped.len() - 1;
    flipped[last] ^= 0xff;
    assert_eq!(decode_loose(&flipped, LIMIT), Err(Error::CorruptObject));
}

#[test]
fn a_compressed_object_with_a_wrong_size_is_corrupt() {
    let mut raw = b"blob 7\0".to_vec();
    raw.extend_from_slice(b"hello");
    let file = compress_to_vec_zlib(&raw, 6);
    assert_eq!(decode_loose(&file, LIMIT), Err(Error::CorruptObject));
}

#[test]
fn an_object_beyond_the_limit_is_corrupt() {
    let body = vec![b'x'; 5000];
    let file = compress_to_vec_zlib(&framed("blob", &body), 6);
    assert_eq!(decode_loose(&file, 100), Err(Error::CorruptObject));
    assert_eq!(decode_loose(&file, 5000), Err(Error::CorruptObject));
    assert_eq!(decode_loose(&file, 5010), Ok((ObjectKind::Blob, body)));
}

#[test]
fn a_stored_commit_is_decoded() {
    let file = compress_to_vec_zlib(&framed("commit", &commit_body()), 6);
    let c = decode_commit(id(1), Some(&file), LIMIT).unwrap();
    assert_eq!(c.id().as_bytes(), &[1u8; 20]);
    assert_eq!(c.title(), b"hello");
    assert_eq!(c.time(), 200);
}

#[test]
fn a_missing_file_is_object_not_found() {
    assert_eq!(decode_commit(id(1), None, LIMIT), Err(Error::ObjectNotFound));
}

#[test]
fn an_object_of_another_kind_is_no_commit() {
    let file = compress_to_vec_zlib(&framed("blob", &commit_body()), 6);
    assert_eq!(decode_commit(id(1), Some(&file), LIMIT), Err(Error::CorruptObject));
    let file = compress_to_vec_zlib(&framed("tree", b""), 6);
    assert_eq!(decode_commit(id(1), Some(&file), LIMIT), Err(Error::CorruptObject));
}

#[test]
fn a_commit_object_with_a_broken_body_is_corrupt() {
    let file = compress_to_vec_zlib(&framed("commit", b"tree 12\n\n"), 6);
    assert_eq!(decode_commit(id(1), Some(&file), LIMIT), Err(Error::CorruptObject));
    assert_eq!(decode_commit(id(1), Some(b"garbage"), LIMIT), Err(Error::CorruptObject));
}
