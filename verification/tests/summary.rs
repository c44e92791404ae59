use gitwalk::commit::Commit;
use gitwalk::object_id::ObjectId;
use gitwalk::summary::{
    author_line, commit_fragment, encoding_warning, id_text, summarize, summarize_all, title_text,
    CommitSummary,
};
use gitwalk::text::{is_text, to_text};

const ID: &str = "00112233445566778899aabbccddeeff00112233";

fn commit(name: &[u8], message: &[u8]) -> Commit {
    let mut raw = b"tree 4b825dc642cb6eb9a060e54bf8d69288fbee4904\nauthor ".to_vec();
    raw.extend_from_slice(name);
    raw.extend_from_slice(b" <ada@example.org> 11 +0000\ncommitter C <c@x> 1700000000 +0000\n\n");
    raw.extend_from_slice(message);
    Commit::parse(ObjectId::parse(ID).unwrap(), &raw).unwrap()
}

#[test]
fn a_summary_shows_id_author_title_and_date() {
    let c = commit(b"Ada Lovelace", b"Fix bug\n\nDetails here");
    assert_eq!(
        summarize(&c),
        CommitSummary {
            id: ID.to_string(),
            author: "Ada Lovelace [ada@example.org]".to_string(),
            message: "Fix bug".to_string(),
            date: 1_700_000_000,
        }
    );
    assert_eq!(id_text(&c), ID);
    assert_eq!(author_line(&c), "Ada Lovelace [ada@example.org]");
    assert_eq!(title_text(&c), "Fix bug");
}

#[test]
fn the_date_is_the_committers() {
    let c = commit(b"A", b"m");
    assert_eq!(c.author().timestamp(), 11);
    assert_eq!(summarize(&c).date, 1_700_000_000);
}

#[test]
fn text_that_is_utf8_is_kept() {
    let c = commit("Jörg Müller".as_bytes(), "Größe ändern\n".as_bytes());
    let s = summarize(&c);
    assert_eq!(s.author, "Jörg Müller [ada@example.org]");
    assert_eq!(s.message, "Größe ändern");
}

#[test]
fn bytes_that_are_not_utf8_are_replaced_not_refused() {
    let c = commit(&[b'J', 0xf6, b'r', b'g'], &[b'a', 0xff, b'b', b'\n']);
    let s = summarize(&c);
    assert_eq!(s.author, "J\u{fffd}rg [ada@example.org]");
    assert_eq!(s.message, "a\u{fffd}b");
}

#[test]
fn an_empty_message_gives_an_empty_title() {
    let c = commit(b"A", b"");
    assert_eq!(summarize(&c).message, "");
}

#[test]
fn summaries_keep_the_order_of_the_commits() {
    let commits = vec![commit(b"A", b"one"), commit(b"B", b"two\nrest")];
    let all = summarize_all(&commits);
    assert_eq!(all.len(), 2);
    assert_eq!(all[0].message, "one");
    assert_eq!(all[1].message, "two");
    assert_eq!(all[1].author, "B [ada@example.org]");
    assert!(summarize_all(&Vec::new()).is_empty());
}

#[test]
fn the_page_fragment_has_name_email_and_title() {
    let c = commit(b"Ada Lovelace", b"Fix bug\n\nDetails here");
    assert_eq!(commit_fragment(&c), "Ada Lovelace &lt;ada@example.org&gt;<br/>Fix bug");
}

#[test]
fn ascii_bytes_become_the_same_characters() {
    assert_eq!(to_text(b"objects/ab/cdef"), "objects/ab/cdef");
    assert_eq!(to_text(b""), "");
}

#[test]
fn other_bytes_become_text_without_failing() {
    assert_eq!(to_text("naïve".as_bytes()), "naïve");
    assert_eq!(to_text(&[b'a', 0x80, b'b']), "a\u{fffd}b");
    assert_eq!(to_text(&[0xe2, 0x82]), "\u{fffd}");
}

#[test]
fn replaced_bytes_raise_a_warning_and_nothing_else() {
    assert!(!encoding_warning(&commit(b"Ada Lovelace", b"Fix bug\n")));
    assert!(!encoding_warning(&commit("Jörg".as_bytes(), "Größe\n".as_bytes())));
    assert!(encoding_warning(&commit(&[b'J', 0xf6, b'r', b'g'], b"Fix bug\n")));
    assert!(encoding_warning(&commit(b"Ada", &[b'a', 0xff, b'\n'])));
    assert!(!encoding_warning(&commit(b"Ada", &[b'a', b'\n', 0xff])));
}

#[test]
fn valid_utf8_is_told_from_other_bytes() {
    assert!(is_text(b""));
    assert!(is_text(b"plain"));
    assert!(is_text("日本語".as_bytes()));
    assert!(!is_text(&[0x80]));
    assert!(!is_text(&[0xc0, 0x80]));
    assert!(!is_text(&[0xed, 0xa0, 0x80]));
    assert!(!is_text(&[0xf4, 0x90, 0x80, 0x80]));
    assert!(!is_text(&[0xe2, 0x82]));
}
