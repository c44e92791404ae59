use gitwalk::locate::{pack_for_index, Search, SearchStep};
use gitwalk::packed_refs::{find_packed_ref, ref_contents};
use gitwalk::refs::{RefStep, Resolver};
use gitwalk::object_id::ObjectId;

const A: &str = "c27d11bbb8140dd9064294f7350ecaa668a280b5";
const B: &str = "24bf1e7c17ce902f4572000efe2b0d4c6d10b4d7";
const T: &str = "e53e38de80ae876f6737a5052979d82a66ef12f1";

fn packed() -> Vec<u8> {
    format!(
        "# pack-refs with: peeled fully-peeled sorted \n{} refs/heads/main\n{} refs/heads/side\n{} refs/tags/v1\n^{}\n",
        A, B, T, A
    )
    .into_bytes()
}

#[test]
fn a_packed_reference_is_found_by_its_name() {
    let raw = packed();
    assert_eq!(find_packed_ref(&raw, b"refs/heads/main"), Some(A.as_bytes().to_vec()));
    assert_eq!(find_packed_ref(&raw, b"refs/heads/side"), Some(B.as_bytes().to_vec()));
    assert_eq!(find_packed_ref(&raw, b"refs/tags/v1"), Some(T.as_bytes().to_vec()));
}

#[test]
fn other_lines_list_no_reference() {
    let raw = packed();
    assert_eq!(find_packed_ref(&raw, b"refs/heads/none"), None);
    assert_eq!(find_packed_ref(&raw, b"refs/heads/mai"), None);
    assert_eq!(find_packed_ref(&raw, b"refs/heads/main "), None);
    assert_eq!(find_packed_ref(&raw, b"pack-refs with: peeled fully-peeled sorted "), None);
    assert_eq!(find_packed_ref(&raw, b""), None);
    assert_eq!(find_packed_ref(b"", b"refs/heads/main"), None);
    assert_eq!(find_packed_ref(b"nonsense refs/heads/main\n", b"refs/heads/main"), None);
}

#[test]
fn the_first_line_for_a_name_counts_and_the_last_needs_no_line_feed() {
    let raw = format!("{} refs/heads/main\n{} refs/heads/main", A, B).into_bytes();
    assert_eq!(find_packed_ref(&raw, b"refs/heads/main"), Some(A.as_bytes().to_vec()));
    let raw = format!("{} refs/heads/x\n{} refs/heads/main", A, B).into_bytes();
    assert_eq!(find_packed_ref(&raw, b"refs/heads/main"), Some(B.as_bytes().to_vec()));
}

#[test]
fn a_file_of_its_own_comes_before_the_packed_references() {
    let raw = packed();
    assert_eq!(
        ref_contents(Some(b"ref: refs/heads/side\n"), Some(&raw), b"refs/heads/main"),
        Some(b"ref: refs/heads/side\n".to_vec())
    );
    assert_eq!(
        ref_contents(None, Some(&raw), b"refs/heads/main"),
        Some(A.as_bytes().to_vec())
    );
    assert_eq!(ref_contents(None, Some(&raw), b"refs/heads/none"), None);
    assert_eq!(ref_contents(None, None, b"refs/heads/main"), None);
}

#[test]
fn head_resolves_through_a_packed_branch() {
    let raw = packed();
    let first = Resolver::start(b"HEAD");
    let head = ref_contents(Some(b"ref: refs/heads/main\n"), Some(&raw), first.wanted());
    match first.step(head.as_deref()) {
        RefStep::Follow(next) => {
            let branch = ref_contents(None, Some(&raw), next.wanted());
            assert_eq!(next.step(branch.as_deref()), RefStep::Found(ObjectId::parse(A).unwrap()));
        }
        other => panic!("unexpected step {:?}", other),
    }
}

#[test]
fn the_pack_of_an_index_has_the_same_name_but_for_its_end() {
    assert_eq!(
        pack_for_index(b"objects/pack/pack-0a1b.idx"),
        Some(b"objects/pack/pack-0a1b.pack".to_vec())
    );
    assert_eq!(pack_for_index(b".idx"), Some(b".pack".to_vec()));
    assert_eq!(pack_for_index(b"pack-0a1b.pack"), None);
    assert_eq!(pack_for_index(b"pack-0a1b.idx.tmp"), None);
    assert_eq!(pack_for_index(b"idx"), None);
    assert_eq!(pack_for_index(b""), None);
}

#[test]
fn a_repository_knows_where_its_packs_and_packed_references_lie() {
    let handle = match Search::start(b"/srv/repo").step(true) {
        SearchStep::Found(handle) => handle,
        other => panic!("unexpected step {:?}", other),
    };
    assert_eq!(handle.pack_dir(), b"/srv/repo/.git/objects/pack".to_vec());
    assert_eq!(handle.packed_refs_path(), b"/srv/repo/.git/packed-refs".to_vec());
}
