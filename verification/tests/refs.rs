use gitwalk::error::RefResolutionError;
use gitwalk::memory::Repository;
use gitwalk::object_id::ObjectId;
use gitwalk::refs::{parse_ref, RefStep, RefTarget, Resolver, SeedStep, MAX_HOPS};

const ID: &str = "0123456789abcdef0123456789abcdef01234567";

fn id() -> ObjectId {
    ObjectId::parse(ID).unwrap()
}

#[test]
fn a_direct_reference_holds_an_id() {
    assert_eq!(parse_ref(format!("{}\n", ID).as_bytes()), Some(RefTarget::Direct(id())));
    assert_eq!(parse_ref(ID.as_bytes()), Some(RefTarget::Direct(id())));
    let long = "ab".repeat(32);
    let expected = ObjectId::from_bytes(&[0xab; 32]).unwrap();
    assert_eq!(parse_ref(long.as_bytes()), Some(RefTarget::Direct(expected)));
}

#[test]
fn a_symbolic_reference_names_another() {
    assert_eq!(
        parse_ref(b"ref: refs/heads/main\n"),
        Some(RefTarget::Symbolic(b"refs/heads/main".to_vec()))
    );
    assert_eq!(
        parse_ref(b"ref: refs/heads/main"),
        Some(RefTarget::Symbolic(b"refs/heads/main".to_vec()))
    );
}

#[test]
fn other_contents_point_at_nothing() {
    for bad in [
        &b""[..],
        b"\n",
        b"ref: ",
        b"ref: \n",
        b"ref:refs/heads/main\n",
        b"refs/heads/main\n",
        b"ref: a\nb\n",
        b"ref: a\n\n",
        b"0123456789abcdef0123456789abcdef0123456\n",
        b"0123456789ABCDEF0123456789abcdef01234567\n",
        b"0123456789abcdef0123456789abcdef01234567\n\n",
        b" 0123456789abcdef0123456789abcdef01234567\n",
    ] {
        assert_eq!(parse_ref(bad), None);
    }
}

#[test]
fn a_step_follows_finds_or_fails() {
    let r = Resolver::start(b"HEAD");
    assert_eq!(r.wanted(), b"HEAD");
    match r.step(Some(b"ref: refs/heads/main\n")) {
        RefStep::Follow(next) => {
            assert_eq!(next.wanted(), b"refs/heads/main");
            assert_eq!(next.step(Some(ID.as_bytes())), RefStep::Found(id()));
        }
        other => panic!("unexpected step {:?}", other),
    }
    assert_eq!(
        Resolver::start(b"HEAD").step(None),
        RefStep::Failed(RefResolutionError::Dangling)
    );
    assert_eq!(
        Resolver::start(b"HEAD").step(Some(b"garbage")),
        RefStep::Failed(RefResolutionError::Dangling)
    );
}

fn repo(refs: &[(&str, &str)]) -> Repository {
    let mut repo = Repository::new(1 << 20);
    for (name, contents) in refs {
        repo.set_ref(name.as_bytes(), contents.as_bytes());
    }
    repo
}

#[test]
fn head_resolves_through_a_branch() {
    let r = repo(&[("HEAD", "ref: refs/heads/main\n"), ("refs/heads/main", ID)]);
    assert_eq!(r.resolve(b"HEAD"), Ok(id()));
    assert_eq!(r.resolve(b"refs/heads/main"), Ok(id()));
}

#[test]
fn a_reference_to_a_missing_file_dangles() {
    let r = repo(&[("HEAD", "ref: refs/heads/main\n")]);
    assert_eq!(r.resolve(b"HEAD"), Err(RefResolutionError::Dangling));
    assert_eq!(r.resolve(b"refs/heads/main"), Err(RefResolutionError::Dangling));
    assert_eq!(repo(&[]).resolve(b"HEAD"), Err(RefResolutionError::Dangling));
}

#[test]
fn a_reference_with_broken_contents_dangles() {
    let r = repo(&[("HEAD", "ref: refs/heads/main\n"), ("refs/heads/main", "oops\n")]);
    assert_eq!(r.resolve(b"HEAD"), Err(RefResolutionError::Dangling));
}

#[test]
fn a_cycle_is_an_error_and_ends() {
    let r = repo(&[("a", "ref: b\n"), ("b", "ref: a\n")]);
    assert_eq!(r.resolve(b"a"), Err(RefResolutionError::CycleOrTooDeep));
    let r = repo(&[("self", "ref: self\n")]);
    assert_eq!(r.resolve(b"self"), Err(RefResolutionError::CycleOrTooDeep));
}

fn chain(symbolic: usize) -> Repository {
    let mut repo = Repository::new(1 << 20);
    for i in 0..symbolic {
        repo.set_ref(format!("r{}", i).as_bytes(), format!("ref: r{}\n", i + 1).as_bytes());
    }
    repo.set_ref(format!("r{}", symbolic).as_bytes(), ID.as_bytes());
    repo
}

#[test]
fn ten_hops_are_followed_and_the_eleventh_is_too_deep() {
    assert_eq!(MAX_HOPS, 10);
    assert_eq!(chain(0).resolve(b"r0"), Ok(id()));
    assert_eq!(chain(9).resolve(b"r0"), Ok(id()));
    assert_eq!(chain(10).resolve(b"r0"), Ok(id()));
    assert_eq!(chain(11).resolve(b"r0"), Err(RefResolutionError::CycleOrTooDeep));
    assert_eq!(chain(11).resolve(b"r1"), Ok(id()));
}

#[test]
fn a_later_file_replaces_an_earlier_one() {
    let mut r = repo(&[("HEAD", "ref: refs/heads/old\n")]);
    r.set_ref(b"HEAD", ID.as_bytes());
    assert_eq!(r.resolve(b"HEAD"), Ok(id()));
}

#[test]
fn a_listing_starts_from_the_resolved_id() {
    let r = repo(&[("HEAD", "ref: refs/heads/main\n"), ("refs/heads/main", ID)]);
    assert_eq!(r.start_of_listing(b"HEAD"), Ok(vec![id()]));
    assert_eq!(r.start_of_listing(b"refs/heads/main"), Ok(vec![id()]));
}

#[test]
fn a_listing_from_a_branch_without_commits_starts_from_nothing() {
    let r = repo(&[("HEAD", "ref: refs/heads/main\n")]);
    assert_eq!(r.start_of_listing(b"HEAD"), Ok(vec![]));
    let r = repo(&[("HEAD", "ref: a\n"), ("a", "ref: b\n")]);
    assert_eq!(r.start_of_listing(b"HEAD"), Ok(vec![]));
}

#[test]
fn a_listing_from_a_missing_reference_fails() {
    let r = repo(&[("HEAD", "ref: refs/heads/main\n")]);
    assert_eq!(r.start_of_listing(b"refs/heads/main"), Err(RefResolutionError::Dangling));
    assert_eq!(r.start_of_listing(b"nothing"), Err(RefResolutionError::Dangling));
    let r = repo(&[("HEAD", "what\n")]);
    assert_eq!(r.start_of_listing(b"HEAD"), Err(RefResolutionError::Dangling));
    let r = repo(&[("a", "ref: b\n"), ("b", "ref: a\n")]);
    assert_eq!(r.start_of_listing(b"a"), Err(RefResolutionError::CycleOrTooDeep));
}

#[test]
fn seed_steps_tell_an_unborn_branch_from_a_missing_reference() {
    assert_eq!(
        Resolver::start(b"HEAD").seed_step(None),
        SeedStep::Failed(RefResolutionError::Dangling)
    );
    match Resolver::start(b"HEAD").seed_step(Some(b"ref: refs/heads/main\n")) {
        SeedStep::Follow(next) => {
            assert_eq!(next.wanted(), b"refs/heads/main");
            assert_eq!(next.seed_step(None), SeedStep::Seeds(vec![]));
        }
        other => panic!("unexpected step {:?}", other),
    }
    assert_eq!(
        Resolver::start(b"HEAD").seed_step(Some(ID.as_bytes())),
        SeedStep::Seeds(vec![id()])
    );
}
