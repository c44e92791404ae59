use gitwalk::commit::{title, Commit};
use gitwalk::error::Error;
use gitwalk::object_id::ObjectId;
use gitwalk::signature::Signature;

const TREE: &str = "4b825dc642cb6eb9a060e54bf8d69288fbee4904";
const PARENT_A: &str = "1111111111111111111111111111111111111111";
const PARENT_B: &str = "2222222222222222222222222222222222222222";

fn id(fill: u8) -> ObjectId {
    ObjectId::from_bytes(&[fill; 20]).unwrap()
}

fn text(parents: &[&str], extra: &str, message: &str) -> Vec<u8> {
    let mut out = format!("tree {}\n", TREE);
    for p in parents {
        out.push_str(&format!("parent {}\n", p));
    }
    out.push_str("author Ada Lovelace <ada@example.org> 1700000000 +0100\n");
    out.push_str("committer Charles Babbage <cb@example.org> 1700000300 -0530\n");
    out.push_str(extra);
    out.push('\n');
    out.push_str(message);
    out.into_bytes()
}

#[test]
fn a_root_commit_is_read_field_by_field() {
    let raw = text(&[], "", "Initial commit\n");
    let c = Commit::parse(id(9), &raw).unwrap();
    assert_eq!(c.id().as_bytes(), &[9u8; 20]);
    assert_eq!(c.tree().to_hex(), TREE.as_bytes());
    assert!(c.parents().is_empty());
    assert_eq!(c.author().name(), b"Ada Lovelace");
    assert_eq!(c.author().email(), b"ada@example.org");
    assert_eq!(c.author().timestamp(), 1_700_000_000);
    assert_eq!(c.author().zone(), b"+0100");
    assert_eq!(c.author().offset_minutes(), 60);
    assert_eq!(c.committer().name(), b"Charles Babbage");
    assert_eq!(c.committer().email(), b"cb@example.org");
    assert_eq!(c.committer().timestamp(), 1_700_000_300);
    assert_eq!(c.committer().offset_minutes(), -330);
    assert_eq!(c.time(), 1_700_000_300);
    assert_eq!(c.extra_headers(), b"");
    assert_eq!(c.message(), b"Initial commit\n");
    assert_eq!(c.title(), b"Initial commit");
}

#[test]
fn parents_keep_the_order_in_which_they_are_written() {
    let raw = text(&[PARENT_B, PARENT_A], "", "Merge\n");
    let c = Commit::parse(id(1), &raw).unwrap();
    assert_eq!(c.parents().len(), 2);
    assert_eq!(c.parents()[0].to_hex(), PARENT_B.as_bytes());
    assert_eq!(c.parents()[1].to_hex(), PARENT_A.as_bytes());
}

#[test]
fn encoding_a_parsed_commit_gives_the_same_bytes() {
    let extra = "gpgsig -----BEGIN PGP SIGNATURE-----\n wsBcBAABCAAQBQJ\n -----END PGP SIGNATURE-----\nencoding ISO-8859-1\n";
    for raw in [
        text(&[], "", ""),
        text(&[PARENT_A], "", "one line"),
        text(&[PARENT_A, PARENT_B], extra, "Title\n\nBody with\n\nblank lines\n"),
    ] {
        let c = Commit::parse(id(3), &raw).unwrap();
        assert_eq!(c.encode(), raw);
        let again = Commit::parse(id(3), &c.encode()).unwrap();
        assert_eq!(again, c);
    }
}

#[test]
fn further_header_lines_are_kept_as_they_are() {
    let extra = "encoding ISO-8859-1\nmergetag object 1\n type commit\n";
    let raw = text(&[PARENT_A], extra, "m");
    let c = Commit::parse(id(3), &raw).unwrap();
    assert_eq!(c.extra_headers(), extra.as_bytes());
    assert_eq!(c.message(), b"m");
}

#[test]
fn title_is_the_message_up_to_its_first_line_feed() {
    let raw = text(&[], "", "Fix bug\n\nDetails here");
    let c = Commit::parse(id(3), &raw).unwrap();
    assert_eq!(c.title(), b"Fix bug");
    assert_eq!(title(b"Fix bug\n\nDetails here"), b"Fix bug");
    assert_eq!(title(b"no line feed"), b"no line feed");
    assert_eq!(title(b"\nsecond"), b"");
}

#[test]
fn an_empty_message_has_an_empty_title() {
    let raw = text(&[], "", "");
    let c = Commit::parse(id(3), &raw).unwrap();
    assert_eq!(c.message(), b"");
    assert_eq!(c.title(), b"");
    assert_eq!(title(b""), b"");
}

#[test]
fn bytes_that_are_not_utf8_are_kept() {
    let mut raw = format!("tree {}\nauthor J", TREE).into_bytes();
    raw.extend_from_slice(&[0xf6, 0x72]);
    raw.extend_from_slice(b"g <j@example.org> 5 +0000\ncommitter x <y> 6 +0000\n\n");
    raw.extend_from_slice(&[0xff, 0xfe, b'\n']);
    let c = Commit::parse(id(3), &raw).unwrap();
    assert_eq!(c.author().name(), &[b'J', 0xf6, 0x72, b'g']);
    assert_eq!(c.message(), &[0xff, 0xfe, b'\n']);
    assert_eq!(c.title(), &[0xff, 0xfe]);
    assert_eq!(c.encode(), raw);
}

#[test]
fn a_missing_tree_line_is_corrupt() {
    let raw = b"author a <b> 1 +0000\ncommitter a <b> 1 +0000\n\nm".to_vec();
    assert_eq!(Commit::parse(id(3), &raw), Err(Error::CorruptObject));
    assert_eq!(Commit::parse(id(3), b""), Err(Error::CorruptObject));
}

#[test]
fn a_malformed_hex_id_is_corrupt() {
    let good = text(&[PARENT_A], "", "m");
    let as_text = String::from_utf8(good).unwrap();
    for bad in [
        as_text.replace(TREE, &TREE[..39]),
        as_text.replace(TREE, &TREE.to_uppercase()),
        as_text.replace(TREE, &format!("{}0", TREE)),
        as_text.replace(PARENT_A, "111111111111111111111111111111111111111g"),
        as_text.replace(PARENT_A, ""),
    ] {
        assert_eq!(Commit::parse(id(3), bad.as_bytes()), Err(Error::CorruptObject));
    }
}

#[test]
fn an_unparsable_timestamp_is_corrupt() {
    let good = String::from_utf8(text(&[], "", "m")).unwrap();
    for bad in [
        good.replace("1700000000", "17000x0000"),
        good.replace("1700000000", ""),
        good.replace("1700000000", "-5"),
        good.replace("1700000000", "01700000000"),
        good.replace("1700000000", "9223372036854775808"),
        good.replace("1700000000", "99999999999999999999999"),
    ] {
        assert_eq!(Commit::parse(id(3), bad.as_bytes()), Err(Error::CorruptObject));
    }
    let edge = good.replace("1700000000", "9223372036854775807");
    let c = Commit::parse(id(3), edge.as_bytes()).unwrap();
    assert_eq!(c.author().timestamp(), i64::MAX);
    let zero = good.replace("1700000000", "0");
    assert_eq!(Commit::parse(id(3), zero.as_bytes()).unwrap().author().timestamp(), 0);
}

#[test]
fn a_malformed_zone_is_corrupt() {
    let good = String::from_utf8(text(&[], "", "m")).unwrap();
    for bad in [
        good.replace("+0100", "0100"),
        good.replace("+0100", "+100"),
        good.replace("+0100", "+01000"),
        good.replace("+0100", "*0100"),
        good.replace("+0100", "+01a0"),
    ] {
        assert_eq!(Commit::parse(id(3), bad.as_bytes()), Err(Error::CorruptObject));
    }
}

#[test]
fn missing_lines_are_corrupt() {
    let good = String::from_utf8(text(&[], "", "m")).unwrap();
    let no_author = good.replace("author Ada Lovelace <ada@example.org> 1700000000 +0100\n", "");
    assert_eq!(Commit::parse(id(3), no_author.as_bytes()), Err(Error::CorruptObject));
    let no_committer =
        good.replace("committer Charles Babbage <cb@example.org> 1700000300 -0530\n", "");
    assert_eq!(Commit::parse(id(3), no_committer.as_bytes()), Err(Error::CorruptObject));
    let no_blank = &good[..good.len() - 2];
    assert_eq!(Commit::parse(id(3), no_blank.as_bytes()), Err(Error::CorruptObject));
    let parent_after_author = format!(
        "tree {}\nauthor a <b> 1 +0000\nparent {}\ncommitter a <b> 1 +0000\n\nm",
        TREE, PARENT_A
    );
    assert_eq!(
        Commit::parse(id(3), parent_after_author.as_bytes()),
        Err(Error::CorruptObject)
    );
}

#[test]
fn a_signature_is_read_and_written_back() {
    let line = b"Grace Hopper <grace@navy.mil> 86400 -0500";
    let s = Signature::parse(line).unwrap();
    assert_eq!(s.name(), b"Grace Hopper");
    assert_eq!(s.email(), b"grace@navy.mil");
    assert_eq!(s.timestamp(), 86_400);
    assert_eq!(s.zone(), b"-0500");
    assert_eq!(s.offset_minutes(), -300);
    assert_eq!(s.encode(), line);
    assert_eq!(s.clone(), s);
}

#[test]
fn a_signature_may_have_an_empty_name_or_email() {
    let s = Signature::parse(b" <> 0 +0000").unwrap();
    assert_eq!(s.name(), b"");
    assert_eq!(s.email(), b"");
    assert_eq!(s.offset_minutes(), 0);
    let s = Signature::parse(b"a > b <x<y> 7 +1345").unwrap();
    assert_eq!(s.name(), b"a > b");
    assert_eq!(s.email(), b"x<y");
    assert_eq!(s.offset_minutes(), 13 * 60 + 45);
}

#[test]
fn a_signature_without_its_delimiters_is_refused() {
    for bad in [
        &b"name<mail> 1 +0000"[..],
        b"<mail> 1 +0000",
        b"name <mail 1 +0000",
        b"name <mail>1 +0000",
        b"name <mail> 1+0000",
        b"name <mail> 1 +0000 ",
        b"name <mail> 1 +0000\n",
        b"na\nme <mail> 1 +0000",
        b"name <mail>",
        b"",
    ] {
        assert!(Signature::parse(bad).is_none());
    }
}

#[test]
fn cloning_a_commit_changes_nothing() {
    let raw = text(&[PARENT_A, PARENT_B], "x y\n", "m");
    let c = Commit::parse(id(3), &raw).unwrap();
    let d = c.clone();
    assert_eq!(d, c);
    assert_eq!(d.encode(), raw);
}

#[test]
fn sha256_ids_are_read_too() {
    let tree = "ab".repeat(32);
    let parent = "cd".repeat(32);
    let raw = format!(
        "tree {}\nparent {}\nauthor a <b> 1 +0000\ncommitter a <b> 2 +0000\n\nm",
        tree, parent
    );
    let id = ObjectId::from_bytes(&[5u8; 32]).unwrap();
    let c = Commit::parse(id, raw.as_bytes()).unwrap();
    assert_eq!(c.tree().as_bytes(), &[0xab; 32]);
    assert_eq!(c.parents()[0].as_bytes(), &[0xcd; 32]);
    assert_eq!(c.encode(), raw.as_bytes());
}
