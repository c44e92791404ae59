use gitwalk::cache::CommitCache;
use gitwalk::error::Error;
use gitwalk::locate::locate;
use gitwalk::loose::ObjectKind;
use gitwalk::object_id::ObjectId;
use gitwalk::odb::find_object;
use miniz_oxide::deflate::compress_to_vec_zlib;

const LIMIT: usize = 1 << 20;

fn id(n: u8) -> ObjectId {
    ObjectId::from_bytes(&[n; 20]).unwrap()
}

fn loose(kind: &str, body: &[u8]) -> Vec<u8> {
    let mut raw = format!("{} {}\0", kind, body.len()).into_bytes();
    raw.extend_from_slice(body);
    compress_to_vec_zlib(&raw, 6)
}

fn commit_file(time: i64) -> Vec<u8> {
    let text = format!(
        "tree 4b825dc642cb6eb9a060e54bf8d69288fbee4904\nauthor A <a@x> {} +0000\ncommitter C <c@x> {} +0000\n\nm",
        time, time
    );
    loose("commit", text.as_bytes())
}

#[test]
fn a_commit_is_decoded_once_and_then_comes_out_of_the_cache() {
    let mut cache = CommitCache::new();
    assert_eq!(cache.decode_count(), 0);
    assert_eq!(cache.lookup(&id(1)), None);
    let file = commit_file(100);
    let first = cache.find_commit(id(1), Some(&file), &Vec::new(), LIMIT).unwrap();
    assert_eq!(cache.decode_count(), 1);
    let second = cache.find_commit(id(1), Some(&file), &Vec::new(), LIMIT).unwrap();
    assert_eq!(cache.decode_count(), 1);
    assert_eq!(first, second);
    assert_eq!(cache.lookup(&id(1)), Some(first));
}

#[test]
fn a_cached_commit_is_handed_out_whatever_the_file_holds_later() {
    let mut cache = CommitCache::new();
    let first = cache.find_commit(id(1), Some(&commit_file(100)), &Vec::new(), LIMIT).unwrap();
    let again = cache.find_commit(id(1), None, &Vec::new(), LIMIT).unwrap();
    assert_eq!(first, again);
    let again = cache.find_commit(id(1), Some(b"junk"), &Vec::new(), LIMIT).unwrap();
    assert_eq!(first, again);
    assert_eq!(cache.decode_count(), 1);
}

#[test]
fn each_id_has_its_own_place_in_the_cache() {
    let mut cache = CommitCache::new();
    for n in 1..=5u8 {
        let c = cache.find_commit(id(n), Some(&commit_file(n as i64)), &Vec::new(), LIMIT);
        assert_eq!(c.unwrap().time(), n as i64);
    }
    let mut twin = [3u8; 20];
    twin[19] = 9;
    let twin = ObjectId::from_bytes(&twin).unwrap();
    let c = cache.find_commit(twin.clone(), Some(&commit_file(77)), &Vec::new(), LIMIT).unwrap();
    assert_eq!(c.time(), 77);
    assert_eq!(cache.decode_count(), 6);
    assert_eq!(cache.lookup(&id(3)).unwrap().time(), 3);
    assert_eq!(cache.lookup(&twin).unwrap().time(), 77);
    assert_eq!(cache.lookup(&id(6)), None);
}

#[test]
fn a_failure_is_counted_and_not_kept() {
    let mut cache = CommitCache::new();
    assert_eq!(
        cache.find_commit(id(1), None, &Vec::new(), LIMIT),
        Err(Error::ObjectNotFound)
    );
    assert_eq!(
        cache.find_commit(id(1), Some(b"junk"), &Vec::new(), LIMIT),
        Err(Error::CorruptObject)
    );
    assert_eq!(cache.decode_count(), 2);
    assert_eq!(cache.lookup(&id(1)), None);
    assert!(cache.find_commit(id(1), Some(&commit_file(5)), &Vec::new(), LIMIT).is_ok());
    assert_eq!(cache.decode_count(), 3);
}

#[test]
fn an_object_of_any_kind_is_found_in_its_loose_file() {
    let file = loose("blob", b"hello");
    assert_eq!(
        find_object(&id(1), Some(&file), &Vec::new(), LIMIT),
        Ok((ObjectKind::Blob, b"hello".to_vec()))
    );
    assert_eq!(find_object(&id(1), None, &Vec::new(), LIMIT), Err(Error::ObjectNotFound));
    assert_eq!(
        find_object(&id(1), Some(b"junk"), &Vec::new(), LIMIT),
        Err(Error::CorruptObject)
    );
}

fn markers(paths: &[&str]) -> Vec<Vec<u8>> {
    paths.iter().map(|p| p.as_bytes().to_vec()).collect()
}

#[test]
fn the_nearest_marker_upwards_locates_the_repository() {
    let there = markers(&["/srv/.git", "/srv/repos/demo/.git"]);
    let handle = locate(b"/srv/repos/demo/src/deep", &there).unwrap();
    assert_eq!(handle.root_path(), b"/srv/repos/demo");
    assert_eq!(handle.git_path(), b"/srv/repos/demo/.git");
    let handle = locate(b"/srv/repos/other", &there).unwrap();
    assert_eq!(handle.root_path(), b"/srv");
    let handle = locate(b"/srv/repos/demo", &there).unwrap();
    assert_eq!(handle.root_path(), b"/srv/repos/demo");
}

#[test]
fn without_a_marker_there_is_no_repository() {
    let there = markers(&["/srv/repos/demo/.git"]);
    assert_eq!(locate(b"/srv/repos/other/src", &there), Err(Error::RepoNotFound));
    assert_eq!(locate(b"/srv/repos", &there), Err(Error::RepoNotFound));
    assert_eq!(locate(b"/", &there), Err(Error::RepoNotFound));
    assert_eq!(locate(b"", &Vec::new()), Err(Error::RepoNotFound));
    assert_eq!(locate(b"srv/repos/demo", &there), Err(Error::RepoNotFound));
}
