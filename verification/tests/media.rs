use gitwalk::error::Error;
use gitwalk::loose::{parse_object, GitObject, ObjectKind};
use gitwalk::media::{content_type, content_type_for, extension};
use gitwalk::object_id::ObjectId;

#[test]
fn the_extension_follows_the_last_dot_of_the_file_name() {
    assert_eq!(extension(b"index.html"), Some(&b"html"[..]));
    assert_eq!(extension(b"archive.tar.gz"), Some(&b"gz"[..]));
    assert_eq!(extension(b"dir.d/app.js"), Some(&b"js"[..]));
    assert_eq!(extension(b"/a/b/.hidden.txt"), Some(&b"txt"[..]));
    assert_eq!(extension(b"name."), Some(&b""[..]));
}

#[test]
fn some_names_have_no_extension() {
    assert_eq!(extension(b"README"), None);
    assert_eq!(extension(b".gitignore"), None);
    assert_eq!(extension(b"dir.d/README"), None);
    assert_eq!(extension(b".."), None);
    assert_eq!(extension(b"a/.."), None);
    assert_eq!(extension(b""), None);
    assert_eq!(extension(b"dir.d/"), None);
}

#[test]
fn known_extensions_have_their_media_type() {
    assert_eq!(content_type("html"), "text/html; charset=utf-8");
    assert_eq!(content_type("css"), "text/css; charset=utf-8");
    assert_eq!(content_type("js"), "text/javascript; charset=utf-8");
    assert_eq!(content_type("json"), "application/json; charset=utf-8");
    assert_eq!(content_type("jpg"), "image/jpeg; charset=utf-8");
    assert_eq!(content_type("jpeg"), "image/jpeg; charset=utf-8");
    assert_eq!(content_type("svg"), "image/svg+xml; charset=utf-8");
    assert_eq!(content_type("woff2"), "font/woff2; charset=utf-8");
    assert_eq!(content_type("f4b"), "video/mp4; charset=utf-8");
    assert_eq!(content_type("mp2"), "video/mpeg; charset=utf-8");
    assert_eq!(content_type("amv"), "video/x-matroska; charset=utf-8");
    assert_eq!(content_type("m3u8"), "application/vnd.apple.mpegurl; charset=utf-8");
    assert_eq!(content_type("ps"), "application/postscript; charset=utf-8");
    assert_eq!(
        content_type("xlsx"),
        "application/vnd.openxmlformats-officedocument.spreadsheetml.sheet; charset=utf-8"
    );
    assert_eq!(content_type("wasm"), "application/wasm; charset=utf-8");
}

#[test]
fn other_extensions_are_served_as_bytes() {
    assert_eq!(content_type("rs"), "application/octet-stream; charset=utf-8");
    assert_eq!(content_type("HTML"), "application/octet-stream; charset=utf-8");
    assert_eq!(content_type(""), "application/octet-stream; charset=utf-8");
}

#[test]
fn a_file_name_gives_its_media_type() {
    assert_eq!(content_type_for(b"style.css"), Some("text/css; charset=utf-8"));
    assert_eq!(content_type_for(b"a/b/logo.png"), Some("image/png; charset=utf-8"));
    assert_eq!(content_type_for(b"data.bin"), Some("application/octet-stream; charset=utf-8"));
    assert_eq!(content_type_for(b"Makefile"), None);
}

#[test]
fn an_object_is_made_of_its_kind_and_bytes() {
    let id = ObjectId::from_bytes(&[1u8; 20]).unwrap();
    let blob = parse_object(id.clone(), ObjectKind::Blob, b"hello".to_vec()).unwrap();
    assert_eq!(blob, GitObject::Blob(b"hello".to_vec()));
    assert_eq!(blob.kind(), ObjectKind::Blob);
    let tree = parse_object(id.clone(), ObjectKind::Tree, vec![1, 2, 3]).unwrap();
    assert_eq!(tree, GitObject::Tree(vec![1, 2, 3]));
    assert_eq!(tree.kind(), ObjectKind::Tree);
    let tag = parse_object(id.clone(), ObjectKind::Tag, Vec::new()).unwrap();
    assert_eq!(tag.kind(), ObjectKind::Tag);
    let text = b"tree 4b825dc642cb6eb9a060e54bf8d69288fbee4904\nauthor a <b> 1 +0000\ncommitter a <b> 2 +0000\n\nm".to_vec();
    match parse_object(id.clone(), ObjectKind::Commit, text).unwrap() {
        GitObject::Commit(c) => {
            assert_eq!(c.id(), &id);
            assert_eq!(c.time(), 2);
        }
        other => panic!("unexpected object {:?}", other),
    }
    assert_eq!(
        parse_object(id, ObjectKind::Commit, b"hello".to_vec()),
        Err(Error::CorruptObject)
    );
}
