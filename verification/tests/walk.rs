use gitwalk::commit::Commit;
use gitwalk::error::{Error, RefResolutionError};
use gitwalk::memory::Repository;
use gitwalk::object_id::ObjectId;
use gitwalk::walk::{Edge, OnError, Order, Step, WalkFailure, Walker};
use miniz_oxide::deflate::compress_to_vec_zlib;

const TREE: &str = "4b825dc642cb6eb9a060e54bf8d69288fbee4904";
const LIMIT: usize = 1 << 20;

fn id(n: u8) -> ObjectId {
    ObjectId::from_bytes(&[n; 20]).unwrap()
}

fn hex(n: u8) -> String {
    String::from_utf8(id(n).to_hex()).unwrap()
}

fn commit_text(parents: &[u8], time: i64, title: &str) -> Vec<u8> {
    let mut out = format!("tree {}\n", TREE);
    for p in parents {
        out.push_str(&format!("parent {}\n", hex(*p)));
    }
    out.push_str(&format!("author A <a@x> {} +0000\n", time));
    out.push_str(&format!("committer C <c@x> {} +0000\n", time));
    out.push('\n');
    out.push_str(title);
    out.into_bytes()
}

fn loose(kind: &str, body: &[u8]) -> Vec<u8> {
    let mut raw = format!("{} {}\0", kind, body.len()).into_bytes();
    raw.extend_from_slice(body);
    compress_to_vec_zlib(&raw, 6)
}

fn add(repo: &mut Repository, n: u8, parents: &[u8], time: i64) {
    let body = commit_text(parents, time, &format!("commit {}\n", n));
    repo.add_object(&id(n), &loose("commit", &body));
}

fn names(commits: &[Commit]) -> Vec<u8> {
    commits.iter().map(|c| c.id().as_bytes()[0]).collect()
}

fn linear() -> Repository {
    let mut repo = Repository::new(LIMIT);
    add(&mut repo, 1, &[], 100);
    add(&mut repo, 2, &[1], 200);
    add(&mut repo, 3, &[2], 300);
    repo.set_ref(b"HEAD", b"ref: refs/heads/main\n");
    repo.set_ref(b"refs/heads/main", format!("{}\n", hex(3)).as_bytes());
    repo
}

fn diamond() -> Repository {
    let mut repo = Repository::new(LIMIT);
    add(&mut repo, 1, &[], 100);
    add(&mut repo, 2, &[1], 200);
    add(&mut repo, 3, &[1], 300);
    add(&mut repo, 4, &[2, 3], 400);
    repo
}

#[test]
fn a_linear_history_is_listed_latest_first() {
    let repo = linear();
    let commits = repo.list_commits(b"HEAD", Order::ByCommitTime).unwrap();
    assert_eq!(names(&commits), vec![3, 2, 1]);
    assert_eq!(commits[0].title(), b"commit 3");
    assert_eq!(commits[2].time(), 100);
}

#[test]
fn a_merge_reaches_the_common_ancestor_once() {
    let repo = diamond();
    let out = repo.walk(&vec![id(4)], Order::ByCommitTime, OnError::Abort);
    assert_eq!(names(&out.commits), vec![4, 3, 2, 1]);
    assert!(out.failures.is_empty());
    assert!(!out.stopped);
}

#[test]
fn parents_in_another_order_do_not_change_the_order_by_time() {
    let mut repo = Repository::new(LIMIT);
    add(&mut repo, 1, &[], 100);
    add(&mut repo, 2, &[1], 200);
    add(&mut repo, 3, &[1], 300);
    add(&mut repo, 4, &[3, 2], 400);
    let out = repo.walk(&vec![id(4)], Order::ByCommitTime, OnError::Abort);
    assert_eq!(names(&out.commits), vec![4, 3, 2, 1]);
}

#[test]
fn commits_of_the_same_second_come_by_ascending_id() {
    let mut repo = Repository::new(LIMIT);
    add(&mut repo, 1, &[], 100);
    add(&mut repo, 7, &[1], 200);
    add(&mut repo, 5, &[1], 200);
    add(&mut repo, 6, &[1], 200);
    add(&mut repo, 9, &[7, 5, 6], 300);
    let out = repo.walk(&vec![id(9)], Order::ByCommitTime, OnError::Abort);
    assert_eq!(names(&out.commits), vec![9, 5, 6, 7, 1]);
}

#[test]
fn the_other_order_gives_out_the_commit_found_last_first() {
    let repo = diamond();
    let out = repo.walk(&vec![id(4)], Order::Topological, OnError::Abort);
    assert_eq!(names(&out.commits), vec![4, 3, 1, 2]);
    let repo = linear();
    let out = repo.walk(&vec![id(3)], Order::Topological, OnError::Abort);
    assert_eq!(names(&out.commits), vec![3, 2, 1]);
}

#[test]
fn several_starting_points_are_merged() {
    let mut repo = Repository::new(LIMIT);
    add(&mut repo, 1, &[], 100);
    add(&mut repo, 2, &[1], 200);
    add(&mut repo, 3, &[1], 300);
    let out = repo.walk(&vec![id(2), id(3), id(2)], Order::ByCommitTime, OnError::Abort);
    assert_eq!(names(&out.commits), vec![3, 2, 1]);
    let out = repo.walk(&vec![id(1), id(3)], Order::ByCommitTime, OnError::Abort);
    assert_eq!(names(&out.commits), vec![3, 1]);
}

#[test]
fn no_starting_points_give_no_commits() {
    let repo = linear();
    let out = repo.walk(&vec![], Order::ByCommitTime, OnError::Abort);
    assert!(out.commits.is_empty());
    assert!(out.failures.is_empty());
    assert!(!out.stopped);
}

#[test]
fn a_walk_is_the_same_when_it_is_run_again() {
    let repo = diamond();
    let first = repo.walk(&vec![id(4)], Order::ByCommitTime, OnError::Skip);
    let second = repo.walk(&vec![id(4)], Order::ByCommitTime, OnError::Skip);
    assert_eq!(first.commits, second.commits);
}

#[test]
fn a_missing_parent_aborts_the_walk_where_that_is_asked_for() {
    let mut repo = Repository::new(LIMIT);
    add(&mut repo, 2, &[1], 200);
    add(&mut repo, 3, &[2], 300);
    let out = repo.walk(&vec![id(3)], Order::ByCommitTime, OnError::Abort);
    assert_eq!(names(&out.commits), vec![3, 2]);
    assert!(out.stopped);
    assert_eq!(
        out.failures,
        vec![WalkFailure {
            edge: Edge { child: Some(id(2)), parent: id(1) },
            error: Error::ObjectNotFound
        }]
    );
    assert_eq!(repo.list_commits(b"HEAD", Order::ByCommitTime), Err(Error::RefResolution(RefResolutionError::Dangling)));
}

#[test]
fn a_missing_parent_is_skipped_where_that_is_asked_for() {
    let mut repo = Repository::new(LIMIT);
    add(&mut repo, 1, &[], 100);
    add(&mut repo, 2, &[1], 200);
    add(&mut repo, 4, &[2, 3], 400);
    let out = repo.walk(&vec![id(4)], Order::ByCommitTime, OnError::Skip);
    assert_eq!(names(&out.commits), vec![4, 2, 1]);
    assert!(!out.stopped);
    assert_eq!(
        out.failures,
        vec![WalkFailure {
            edge: Edge { child: Some(id(4)), parent: id(3) },
            error: Error::ObjectNotFound
        }]
    );
    let out = repo.walk(&vec![id(4)], Order::ByCommitTime, OnError::Abort);
    assert_eq!(names(&out.commits), vec![4]);
    assert!(out.stopped);
}

#[test]
fn a_corrupt_parent_is_reported_as_corrupt() {
    let mut repo = Repository::new(LIMIT);
    add(&mut repo, 2, &[1], 200);
    repo.add_object(&id(1), b"not a zlib stream");
    let out = repo.walk(&vec![id(2)], Order::ByCommitTime, OnError::Skip);
    assert_eq!(names(&out.commits), vec![2]);
    assert_eq!(out.failures.len(), 1);
    assert_eq!(out.failures[0].error, Error::CorruptObject);
    assert_eq!(out.failures[0].edge.parent, id(1));
    let mut repo = Repository::new(LIMIT);
    add(&mut repo, 2, &[1], 200);
    repo.add_object(&id(1), &loose("blob", b"hello"));
    let out = repo.walk(&vec![id(2)], Order::ByCommitTime, OnError::Skip);
    assert_eq!(out.failures[0].error, Error::CorruptObject);
}

#[test]
fn a_missing_starting_point_is_a_failure_without_a_child() {
    let repo = Repository::new(LIMIT);
    let out = repo.walk(&vec![id(8)], Order::ByCommitTime, OnError::Skip);
    assert!(out.commits.is_empty());
    assert_eq!(
        out.failures,
        vec![WalkFailure { edge: Edge { child: None, parent: id(8) }, error: Error::ObjectNotFound }]
    );
}

#[test]
fn a_listing_fails_with_the_error_of_the_first_failure() {
    let mut repo = Repository::new(LIMIT);
    add(&mut repo, 2, &[1], 200);
    repo.set_ref(b"HEAD", hex(2).as_bytes());
    assert_eq!(repo.list_commits(b"HEAD", Order::ByCommitTime), Err(Error::ObjectNotFound));
    repo.add_object(&id(1), b"junk");
    assert_eq!(repo.list_commits(b"HEAD", Order::ByCommitTime), Err(Error::CorruptObject));
}

#[test]
fn a_branch_without_commits_lists_nothing() {
    let mut repo = Repository::new(LIMIT);
    repo.set_ref(b"HEAD", b"ref: refs/heads/main\n");
    assert_eq!(repo.list_commits(b"HEAD", Order::ByCommitTime), Ok(vec![]));
    assert_eq!(repo.list_commits(b"HEAD", Order::Topological), Ok(vec![]));
    assert_eq!(repo.resolve(b"HEAD"), Err(RefResolutionError::Dangling));
}

#[test]
fn a_start_reference_that_does_not_resolve_fails_the_listing() {
    let mut repo = linear();
    assert_eq!(
        repo.list_commits(b"refs/heads/none", Order::ByCommitTime),
        Err(Error::RefResolution(RefResolutionError::Dangling))
    );
    repo.set_ref(b"a", b"ref: b\n");
    repo.set_ref(b"b", b"ref: a\n");
    assert_eq!(
        repo.list_commits(b"a", Order::ByCommitTime),
        Err(Error::RefResolution(RefResolutionError::CycleOrTooDeep))
    );
}

#[test]
fn get_commit_finds_a_commit_by_its_hex_id() {
    let repo = linear();
    let c = repo.get_commit(&hex(2)).unwrap();
    assert_eq!(c.id(), &id(2));
    assert_eq!(c.parents(), &vec![id(1)]);
    assert_eq!(c.title(), b"commit 2");
}

#[test]
fn get_commit_refuses_a_malformed_id() {
    let repo = linear();
    let thirty_nine = &hex(2)[..39];
    assert_eq!(repo.get_commit(thirty_nine), Err(Error::InvalidObjectId));
    assert_eq!(
        repo.get_commit("020202020202020202020202020202020202020z"),
        Err(Error::InvalidObjectId)
    );
    assert_eq!(repo.get_commit(&hex(2).to_uppercase().replace('2', "A")), Err(Error::InvalidObjectId));
    assert_eq!(repo.get_commit(""), Err(Error::InvalidObjectId));
}

#[test]
fn get_commit_tells_missing_from_corrupt() {
    let mut repo = linear();
    assert_eq!(repo.get_commit(&hex(9)), Err(Error::ObjectNotFound));
    repo.add_object(&id(9), &loose("tree", b""));
    assert_eq!(repo.get_commit(&hex(9)), Err(Error::CorruptObject));
    repo.add_object(&id(9), &loose("commit", b"tree\n"));
    assert_eq!(repo.get_commit(&hex(9)), Err(Error::CorruptObject));
}

#[test]
fn two_lookups_of_one_commit_agree() {
    let repo = linear();
    assert_eq!(repo.get_commit(&hex(3)), repo.get_commit(&hex(3)));
}

#[test]
fn a_walker_asks_loads_and_emits_step_by_step() {
    let repo_files: Vec<(ObjectId, Vec<u8>)> = vec![
        (id(1), loose("commit", &commit_text(&[], 100, "one"))),
        (id(2), loose("commit", &commit_text(&[1], 200, "two"))),
    ];
    let find = |wanted: &ObjectId| {
        repo_files.iter().find(|(i, _)| i == wanted).map(|(_, f)| f.as_slice())
    };
    let mut walker = Walker::new(&vec![id(2)], Order::ByCommitTime, OnError::Abort);
    assert!(!walker.is_finished());
    let mut log = Vec::new();
    loop {
        match walker.next() {
            Step::Load(edge) => {
                log.push(format!("load {}", edge.parent.as_bytes()[0]));
                assert!(walker.supply_file(find(&edge.parent), LIMIT).is_none());
            }
            Step::Emit(c) => log.push(format!("emit {}", c.id().as_bytes()[0])),
            Step::Done => break,
        }
    }
    assert_eq!(log, vec!["load 2", "emit 2", "load 1", "emit 1"]);
    assert!(walker.is_finished());
    assert!(!walker.is_stopped());
    assert_eq!(walker.next(), Step::Done);
}

#[test]
fn a_walker_that_waits_asks_again_and_ignores_what_was_not_asked_for() {
    let mut walker = Walker::new(&vec![id(2)], Order::ByCommitTime, OnError::Abort);
    let first = walker.next();
    assert_eq!(first, Step::Load(Edge { child: None, parent: id(2) }));
    assert_eq!(walker.next(), first);
    let other = Commit::parse(id(5), &commit_text(&[], 1, "x")).unwrap();
    let failure = walker.supply(Ok(other)).unwrap();
    assert_eq!(failure.error, Error::CorruptObject);
    assert_eq!(failure.edge.parent, id(2));
    assert!(walker.is_stopped());
    assert_eq!(walker.next(), Step::Done);
    let mut idle = Walker::new(&vec![], Order::ByCommitTime, OnError::Skip);
    assert_eq!(idle.supply(Err(Error::ObjectNotFound)), None);
    assert_eq!(idle.next(), Step::Done);
}

#[test]
fn a_cycle_of_commits_does_not_keep_a_walk_going() {
    let mut repo = Repository::new(LIMIT);
    add(&mut repo, 1, &[2], 100);
    add(&mut repo, 2, &[1], 100);
    let out = repo.walk(&vec![id(1)], Order::ByCommitTime, OnError::Abort);
    assert_eq!(names(&out.commits), vec![1, 2]);
}

#[test]
fn a_long_history_is_walked_to_its_root() {
    let mut repo = Repository::new(LIMIT);
    let ids: Vec<ObjectId> = (0..300u32)
        .map(|n| {
            let mut raw = [0u8; 20];
            raw[0] = (n % 251) as u8;
            raw[1] = (n / 251) as u8;
            raw[19] = 1;
            ObjectId::from_bytes(&raw).unwrap()
        })
        .collect();
    for (n, this) in ids.iter().enumerate() {
        let mut text = format!("tree {}\n", TREE);
        if n > 0 {
            text.push_str(&format!("parent {}\n", String::from_utf8(ids[n - 1].to_hex()).unwrap()));
        }
        text.push_str(&format!("author A <a@x> {} +0000\ncommitter C <c@x> {} +0000\n\nm", n, n));
        repo.add_object(this, &loose("commit", text.as_bytes()));
    }
    let out = repo.walk(&vec![ids[299].clone()], Order::ByCommitTime, OnError::Abort);
    assert_eq!(out.commits.len(), 300);
    for (k, c) in out.commits.iter().enumerate() {
        assert_eq!(c.id(), &ids[299 - k]);
    }
}
