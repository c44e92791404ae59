use gitwalk::locate::{check_name, RepositoryHandle, Search, SearchStep};
use gitwalk::object_id::ObjectId;

fn probe(path: &str, markers: &[&str]) -> (Vec<String>, Option<RepositoryHandle>) {
    let mut asked = Vec::new();
    let mut search = Search::start(path.as_bytes());
    loop {
        let marker = String::from_utf8(search.marker()).unwrap();
        let found = markers.contains(&marker.as_str());
        asked.push(marker);
        match search.step(found) {
            SearchStep::Found(handle) => return (asked, Some(handle)),
            SearchStep::Probe(next) => search = next,
            SearchStep::NotFound => return (asked, None),
        }
    }
}

#[test]
fn the_search_goes_up_to_the_root() {
    let (asked, found) = probe("/home/ada/project/src", &[]);
    assert_eq!(
        asked,
        vec![
            "/home/ada/project/src/.git",
            "/home/ada/project/.git",
            "/home/ada/.git",
            "/home/.git",
            "/.git"
        ]
    );
    assert!(found.is_none());
}

#[test]
fn the_nearest_repository_is_found() {
    let (asked, found) =
        probe("/home/ada/project/src", &["/home/ada/project/.git", "/home/.git"]);
    assert_eq!(asked, vec!["/home/ada/project/src/.git", "/home/ada/project/.git"]);
    let handle = found.unwrap();
    assert_eq!(handle.root_path(), b"/home/ada/project");
    assert_eq!(handle.git_path(), b"/home/ada/project/.git");
}

#[test]
fn a_repository_at_the_path_itself_is_found_at_once() {
    let (asked, found) = probe("repos/demo", &["repos/demo/.git"]);
    assert_eq!(asked, vec!["repos/demo/.git"]);
    assert_eq!(found.unwrap().root_path(), b"repos/demo");
}

#[test]
fn a_relative_path_is_searched_as_far_as_it_names_directories() {
    let (asked, found) = probe("a/b/c", &[]);
    assert_eq!(asked, vec!["a/b/c/.git", "a/b/.git", "a/.git"]);
    assert!(found.is_none());
    let (asked, _) = probe("single", &[]);
    assert_eq!(asked, vec!["single/.git"]);
}

#[test]
fn slashes_at_the_end_and_in_a_row_are_passed_over() {
    let (asked, _) = probe("/a//b/", &[]);
    assert_eq!(asked, vec!["/a//b/.git", "/a/.git", "/.git"]);
    let (asked, _) = probe("/", &[]);
    assert_eq!(asked, vec!["/.git"]);
    let (asked, _) = probe("", &[]);
    assert_eq!(asked, vec![".git"]);
}

fn handle() -> RepositoryHandle {
    probe("/srv/repo", &["/srv/repo/.git"]).1.unwrap()
}

#[test]
fn a_loose_object_lies_under_its_first_two_hex_digits() {
    let id = ObjectId::parse("0123456789abcdef0123456789abcdef01234567").unwrap();
    assert_eq!(
        String::from_utf8(handle().object_path(&id)).unwrap(),
        "/srv/repo/.git/objects/01/23456789abcdef0123456789abcdef01234567"
    );
}

#[test]
fn a_reference_lies_under_its_name() {
    let h = handle();
    assert_eq!(h.ref_path(b"HEAD"), Some(b"/srv/repo/.git/HEAD".to_vec()));
    assert_eq!(
        h.ref_path(b"refs/heads/feature/x"),
        Some(b"/srv/repo/.git/refs/heads/feature/x".to_vec())
    );
}

#[test]
fn names_that_lead_out_of_the_repository_are_refused() {
    let h = handle();
    for bad in [
        &b""[..],
        b"/etc/passwd",
        b"..",
        b".",
        b"../HEAD",
        b"refs/../../../etc/passwd",
        b"refs/..",
        b"refs/./heads",
        b"refs//heads",
        b"refs/heads/",
        b"refs/he\0ads",
    ] {
        assert!(!check_name(bad));
        assert_eq!(h.ref_path(bad), None);
    }
    for good in [&b"HEAD"[..], b"refs/heads/main", b"refs/heads/..a", b"a.b/.c", b"refs/tags/v1..2"] {
        assert!(check_name(good));
    }
}
