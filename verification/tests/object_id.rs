use gitwalk::error::{Error, RefResolutionError};
use gitwalk::bytes::bytes_equal_to;
use gitwalk::object_id::{bytes_precede, ObjectId};

const SHA1_HEX: &str = "0123456789abcdef0123456789abcdef01234567";

#[test]
fn parse_accepts_forty_lowercase_hex_digits() {
    let id = ObjectId::parse(SHA1_HEX).unwrap();
    assert_eq!(id.as_bytes().len(), 20);
    assert_eq!(id.as_bytes()[0], 0x01);
    assert_eq!(id.as_bytes()[1], 0x23);
    assert_eq!(id.as_bytes()[7], 0xef);
    assert_eq!(id.as_bytes()[19], 0x67);
}

#[test]
fn parse_accepts_sixty_four_lowercase_hex_digits() {
    let text = "00ff".repeat(16);
    let id = ObjectId::parse(&text).unwrap();
    assert_eq!(id.as_bytes().len(), 32);
    assert_eq!(id.as_bytes()[0], 0x00);
    assert_eq!(id.as_bytes()[1], 0xff);
}

#[test]
fn hex_text_round_trips() {
    let id = ObjectId::parse(SHA1_HEX).unwrap();
    assert_eq!(id.to_hex(), SHA1_HEX.as_bytes().to_vec());
    let again = ObjectId::from_hex(&id.to_hex()).unwrap();
    assert!(again.same(&id));
    assert_eq!(again, id);
}

#[test]
fn parse_refuses_thirty_nine_characters() {
    let text = &SHA1_HEX[..39];
    assert_eq!(ObjectId::parse(text), Err(Error::InvalidObjectId));
}

#[test]
fn parse_refuses_forty_one_characters() {
    let text = format!("{}0", SHA1_HEX);
    assert_eq!(ObjectId::parse(&text), Err(Error::InvalidObjectId));
}

#[test]
fn parse_refuses_a_non_hex_character() {
    let text = "0123456789abcdef0123456789abcdef0123456g";
    assert_eq!(ObjectId::parse(text), Err(Error::InvalidObjectId));
    let text = "0123456789abcdef0123456789abcdef0123456 ";
    assert_eq!(ObjectId::parse(text), Err(Error::InvalidObjectId));
}

#[test]
fn parse_refuses_uppercase_digits() {
    let text = "0123456789ABCDEF0123456789abcdef01234567";
    assert_eq!(ObjectId::parse(text), Err(Error::InvalidObjectId));
}

#[test]
fn parse_refuses_the_empty_string_and_non_ascii_text() {
    assert_eq!(ObjectId::parse(""), Err(Error::InvalidObjectId));
    let text = "é".repeat(20);
    assert_eq!(text.len(), 40);
    assert_eq!(ObjectId::parse(&text), Err(Error::InvalidObjectId));
}

#[test]
fn from_bytes_wants_twenty_or_thirty_two_bytes() {
    assert!(ObjectId::from_bytes(&[7u8; 20]).is_some());
    assert!(ObjectId::from_bytes(&[7u8; 32]).is_some());
    assert!(ObjectId::from_bytes(&[7u8; 19]).is_none());
    assert!(ObjectId::from_bytes(&[7u8; 21]).is_none());
    assert!(ObjectId::from_bytes(&[]).is_none());
}

#[test]
fn clone_keeps_the_bytes() {
    let id = ObjectId::from_bytes(&[9u8; 20]).unwrap();
    let copy = id.clone();
    assert_eq!(copy.as_bytes(), id.as_bytes());
}

#[test]
fn ids_are_ordered_byte_by_byte() {
    let low = ObjectId::from_bytes(&[1u8; 20]).unwrap();
    let mut raw = [1u8; 20];
    raw[19] = 2;
    let high = ObjectId::from_bytes(&raw).unwrap();
    assert!(low.precedes(&high));
    assert!(!high.precedes(&low));
    assert!(!low.precedes(&low));
}

#[test]
fn byte_order_puts_a_proper_prefix_first() {
    assert!(bytes_precede(b"ab", b"abc"));
    assert!(!bytes_precede(b"abc", b"ab"));
    assert!(bytes_precede(b"", b"a"));
    assert!(!bytes_precede(b"", b""));
    assert!(bytes_precede(b"ab", b"b"));
    assert!(bytes_equal_to(b"abc", b"abc"));
    assert!(!bytes_equal_to(b"abc", b"abd"));
    assert!(!bytes_equal_to(b"abc", b"ab"));
}

#[test]
fn every_error_has_its_own_message() {
    assert_eq!(Error::RepoNotFound.message(), "repository not found");
    assert_eq!(Error::InvalidObjectId.message(), "invalid object id");
    assert_eq!(Error::ObjectNotFound.message(), "object not found");
    assert_eq!(Error::CorruptObject.message(), "corrupt object");
    assert_eq!(
        Error::RefResolution(RefResolutionError::Dangling).message(),
        "dangling reference"
    );
    assert_eq!(
        Error::RefResolution(RefResolutionError::CycleOrTooDeep).message(),
        "reference cycle or chain too deep"
    );
}
