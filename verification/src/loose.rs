//! Loose objects: one object per file, held as a zlib stream of a header
//! `<kind> <size>` and a zero byte, followed by the object's own bytes.

use crate::bytes::{
    copy_range, file_view, find_byte, find_from, lacks, lemma_find_from, lemma_find_from_is,
    starts_at, SP,
};
use crate::commit::{commit_of, result_view, Commit, CommitView};
use crate::decimal::{
    decimal_text, decimal_value, is_decimal, is_digit, lemma_decimal_text,
    lemma_decimal_text_of_value, parse_decimal,
};
use crate::error::Error;
use crate::object_id::ObjectId;
use crate::zlib::{inflate, zlib_inflated};
use vstd::prelude::*;

verus! {

/// The zero byte that ends the header.
pub const NUL: u8 = 0;

/// The four kinds of object that a store holds.
#[derive(Clone, Copy, Debug, PartialEq, Eq, Structural)]
pub enum ObjectKind {
    /// A commit: a tree, its parents and who made it.
    Commit,
    /// A directory listing.
    Tree,
    /// The contents of a file.
    Blob,
    /// An annotated tag.
    Tag,
}

/// The word that names a kind in an object's header.
pub open spec fn kind_name(kind: ObjectKind) -> Seq<u8> {
    match kind {
        ObjectKind::Commit => seq![0x63, 0x6f, 0x6d, 0x6d, 0x69, 0x74],
        ObjectKind::Tree => seq![0x74, 0x72, 0x65, 0x65],
        ObjectKind::Blob => seq![0x62, 0x6c, 0x6f, 0x62],
        ObjectKind::Tag => seq![0x74, 0x61, 0x67],
    }
}

/// The kind that a word names, if it names one.
pub open spec fn kind_of_name(name: Seq<u8>) -> Option<ObjectKind> {
    if name == kind_name(ObjectKind::Commit) {
        Some(ObjectKind::Commit)
    } else if name == kind_name(ObjectKind::Tree) {
        Some(ObjectKind::Tree)
    } else if name == kind_name(ObjectKind::Blob) {
        Some(ObjectKind::Blob)
    } else if name == kind_name(ObjectKind::Tag) {
        Some(ObjectKind::Tag)
    } else {
        None
    }
}

/// An object's header with a declared size of `size`: the kind, a space,
/// the size in decimal, a zero byte.
pub open spec fn header_text(kind: ObjectKind, size: nat) -> Seq<u8> {
    kind_name(kind) + seq![SP] + decimal_text(size) + seq![NUL]
}

/// A loose object before it is compressed: the header that declares the
/// length of `body`, then `body`.
pub open spec fn loose_text(kind: ObjectKind, body: Seq<u8>) -> Seq<u8> {
    header_text(kind, body.len()) + body
}

/// The object that `raw` holds, if it holds one: the header ends at the
/// first zero byte, the kind at the first space, and the size that is
/// declared between them is the number of bytes after the header.
pub open spec fn loose_of(raw: Seq<u8>) -> Option<(ObjectKind, Seq<u8>)> {
    let z = find_from(raw, 0, NUL);
    let sp = find_from(raw, 0, SP);
    let size = raw.subrange(sp + 1, z);
    if z < raw.len() && sp < z && kind_of_name(raw.subrange(0, sp)) is Some && is_decimal(size)
        && decimal_value(size) == raw.len() - z - 1 {
        Some((kind_of_name(raw.subrange(0, sp))->0, raw.subrange(z + 1, raw.len() as int)))
    } else {
        None
    }
}

proof fn lemma_kind_names(kind: ObjectKind)
    ensures
        kind_of_name(kind_name(kind)) == Some(kind),
        lacks(kind_name(kind), SP),
        lacks(kind_name(kind), NUL),
{
}

proof fn lemma_kind_of_name(name: Seq<u8>)
    requires
        kind_of_name(name) is Some,
    ensures
        kind_name(kind_of_name(name)->0) == name,
{
}

/// Where the parts of a header followed by any bytes lie.
proof fn lemma_header_layout(kind: ObjectKind, size: nat, body: Seq<u8>)
    ensures
        ({
            let raw = header_text(kind, size) + body;
            let a = kind_name(kind).len() as int;
            let z = a + 1 + decimal_text(size).len();
            &&& raw.len() == z + 1 + body.len()
            &&& find_from(raw, 0, SP) == a
            &&& find_from(raw, 0, NUL) == z
            &&& raw.subrange(0, a) == kind_name(kind)
            &&& raw.subrange(a + 1, z) == decimal_text(size)
            &&& raw.subrange(z + 1, raw.len() as int) == body
        }),
{
    let raw = header_text(kind, size) + body;
    let name = kind_name(kind);
    let d = decimal_text(size);
    let a = name.len() as int;
    let z = a + 1 + d.len();
    lemma_kind_names(kind);
    lemma_decimal_text(size);
    assert forall|j: int| 0 <= j < a implies #[trigger] raw[j] != SP && raw[j] != NUL by {
        assert(raw[j] == name[j]);
    }
    assert forall|j: int| a < j < z implies #[trigger] raw[j] != NUL by {
        assert(raw[j] == d[j - a - 1]);
        assert(is_digit(d[j - a - 1]));
    }
    lemma_find_from_is(raw, 0, SP, a);
    lemma_find_from_is(raw, 0, NUL, z);
}

/// What reads as a loose object is the text of that object.
pub proof fn lemma_loose_of_sound(raw: Seq<u8>, kind: ObjectKind, body: Seq<u8>)
    requires
        loose_of(raw) == Some((kind, body)),
    ensures
        loose_text(kind, body) == raw,
{
    let z = find_from(raw, 0, NUL);
    let sp = find_from(raw, 0, SP);
    lemma_find_from(raw, 0, NUL);
    lemma_find_from(raw, 0, SP);
    let size = raw.subrange(sp + 1, z);
    lemma_kind_of_name(raw.subrange(0, sp));
    lemma_decimal_text_of_value(size);
}

/// The text of a loose object reads as that object.
pub proof fn lemma_loose_of_complete(kind: ObjectKind, body: Seq<u8>)
    ensures
        loose_of(loose_text(kind, body)) == Some((kind, body)),
{
    lemma_header_layout(kind, body.len(), body);
    lemma_kind_names(kind);
    lemma_decimal_text(body.len());
}

/// A header whose declared size is not the number of bytes that follow it
/// makes no object.
pub proof fn lemma_size_mismatch_is_corrupt(kind: ObjectKind, size: nat, body: Seq<u8>)
    requires
        size != body.len(),
    ensures
        loose_of(header_text(kind, size) + body) is None,
{
    lemma_header_layout(kind, size, body);
    lemma_decimal_text(size);
}

fn kind_from_name(raw: &[u8], end: usize) -> (r: Option<ObjectKind>)
    requires
        end <= raw@.len(),
    ensures
        r == kind_of_name(raw@.subrange(0, end as int)),
{
    let commit: [u8; 6] = [0x63, 0x6f, 0x6d, 0x6d, 0x69, 0x74];
    let tree: [u8; 4] = [0x74, 0x72, 0x65, 0x65];
    let blob: [u8; 4] = [0x62, 0x6c, 0x6f, 0x62];
    let tag: [u8; 3] = [0x74, 0x61, 0x67];
    assert(commit@ =~= kind_name(ObjectKind::Commit));
    assert(tree@ =~= kind_name(ObjectKind::Tree));
    assert(blob@ =~= kind_name(ObjectKind::Blob));
    assert(tag@ =~= kind_name(ObjectKind::Tag));
    if end == 6 && starts_at(raw, 0, commit.as_slice()) {
        Some(ObjectKind::Commit)
    } else if end == 4 && starts_at(raw, 0, tree.as_slice()) {
        Some(ObjectKind::Tree)
    } else if end == 4 && starts_at(raw, 0, blob.as_slice()) {
        Some(ObjectKind::Blob)
    } else if end == 3 && starts_at(raw, 0, tag.as_slice()) {
        Some(ObjectKind::Tag)
    } else {
        None
    }
}

/// Splits an inflated loose object into its kind and its own bytes. A
/// header that is malformed, or that declares another size than the number
/// of bytes after it, makes the object corrupt.
pub fn parse_loose(raw: &[u8]) -> (r: Result<(ObjectKind, Vec<u8>), Error>)
    ensures
        match r {
            Ok((kind, body)) => loose_of(raw@) == Some((kind, body@)) && loose_text(kind, body@)
                == raw@,
            Err(e) => e == Error::CorruptObject && loose_of(raw@) is None && forall|
                kind: ObjectKind,
                body: Seq<u8>,
            | #[trigger] loose_text(kind, body) != raw@,
        },
{
    proof {
        if loose_of(raw@) is None {
            assert forall|kind: ObjectKind, body: Seq<u8>| #[trigger] loose_text(kind, body)
                != raw@ by {
                lemma_loose_of_complete(kind, body);
            }
        }
    }
    let n: usize = raw.len();
    let z: usize = find_byte(raw, 0, NUL);
    let sp: usize = find_byte(raw, 0, SP);
    if z >= n || sp >= z {
        return Err(Error::CorruptObject);
    }
    let kind = match kind_from_name(raw, sp) {
        Some(kind) => kind,
        None => {
            return Err(Error::CorruptObject);
        },
    };
    let size = match parse_decimal(vstd::slice::slice_subrange(raw, sp + 1, z)) {
        Some(size) => size,
        None => {
            return Err(Error::CorruptObject);
        },
    };
    if size != (n - z - 1) as u64 {
        return Err(Error::CorruptObject);
    }
    let body = copy_range(raw, z + 1, n);
    proof {
        lemma_loose_of_sound(raw@, kind, body@);
    }
    Ok((kind, body))
}

/// The object that a loose object file holds, if it holds one.
pub open spec fn loose_object_of(file: Seq<u8>, limit: usize) -> Option<(ObjectKind, Seq<u8>)> {
    match zlib_inflated(file, limit) {
        Some(raw) => loose_of(raw),
        None => None,
    }
}

/// Decodes a loose object file: inflates it into at most `limit` bytes and
/// splits what comes out. A stream that does not inflate, and a header that
/// is malformed or declares a wrong size, make the object corrupt.
pub fn decode_loose(file: &[u8], limit: usize) -> (r: Result<(ObjectKind, Vec<u8>), Error>)
    ensures
        match r {
            Ok((kind, body)) => loose_object_of(file@, limit) == Some((kind, body@)),
            Err(e) => e == Error::CorruptObject && loose_object_of(file@, limit) is None,
        },
{
    match inflate(file, limit) {
        Some(raw) => parse_loose(raw.as_slice()),
        None => Err(Error::CorruptObject),
    }
}

/// An object of any kind, as plain values. Only a commit is taken apart;
/// of the other kinds this crate keeps the bytes as they are.
#[verifier::ext_equal]
pub enum GitObjectView {
    /// A commit.
    Commit(CommitView),
    /// A directory listing, as stored.
    Tree(Seq<u8>),
    /// The contents of a file.
    Blob(Seq<u8>),
    /// An annotated tag, as stored.
    Tag(Seq<u8>),
}

/// The object of kind `kind` that `body` holds, stored under `id`: a
/// commit where `body` is the text of one, and for the other kinds `body`
/// itself.
pub open spec fn object_of(id: Seq<u8>, kind: ObjectKind, body: Seq<u8>) -> Option<GitObjectView> {
    match kind {
        ObjectKind::Commit => match commit_of(id, body) {
            Some(c) => Some(GitObjectView::Commit(c)),
            None => None,
        },
        ObjectKind::Tree => Some(GitObjectView::Tree(body)),
        ObjectKind::Blob => Some(GitObjectView::Blob(body)),
        ObjectKind::Tag => Some(GitObjectView::Tag(body)),
    }
}

/// An object of any kind.
#[derive(Debug, PartialEq, Eq)]
pub enum GitObject {
    /// A commit.
    Commit(Commit),
    /// A directory listing, as stored.
    Tree(Vec<u8>),
    /// The contents of a file.
    Blob(Vec<u8>),
    /// An annotated tag, as stored.
    Tag(Vec<u8>),
}

impl View for GitObject {
    type V = GitObjectView;

    open spec fn view(&self) -> GitObjectView {
        match self {
            GitObject::Commit(c) => GitObjectView::Commit(c@),
            GitObject::Tree(body) => GitObjectView::Tree(body@),
            GitObject::Blob(body) => GitObjectView::Blob(body@),
            GitObject::Tag(body) => GitObjectView::Tag(body@),
        }
    }
}

impl GitObject {
    /// The kind of the object.
    pub fn kind(&self) -> (r: ObjectKind)
        ensures
            r == match self@ {
                GitObjectView::Commit(_) => ObjectKind::Commit,
                GitObjectView::Tree(_) => ObjectKind::Tree,
                GitObjectView::Blob(_) => ObjectKind::Blob,
                GitObjectView::Tag(_) => ObjectKind::Tag,
            },
    {
        match self {
            GitObject::Commit(_) => ObjectKind::Commit,
            GitObject::Tree(_) => ObjectKind::Tree,
            GitObject::Blob(_) => ObjectKind::Blob,
            GitObject::Tag(_) => ObjectKind::Tag,
        }
    }
}

/// Makes the object of kind `kind` out of its bytes, as stored under `id`.
/// Bytes that are not the text of a commit make a corrupt commit; the
/// bytes of the other kinds are taken as they are.
pub fn parse_object(id: ObjectId, kind: ObjectKind, body: Vec<u8>) -> (r: Result<GitObject, Error>)
    ensures
        match r {
            Ok(object) => object_of(id@, kind, body@) == Some(object@),
            Err(e) => e == Error::CorruptObject && object_of(id@, kind, body@) is None,
        },
{
    match kind {
        ObjectKind::Commit => match Commit::parse(id, body.as_slice()) {
            Ok(c) => Ok(GitObject::Commit(c)),
            Err(e) => Err(e),
        },
        ObjectKind::Tree => Ok(GitObject::Tree(body)),
        ObjectKind::Blob => Ok(GitObject::Blob(body)),
        ObjectKind::Tag => Ok(GitObject::Tag(body)),
    }
}

/// What asking a store for the commit `id` comes to, given the loose object
/// file that was found under that id, if one was: nothing found is
/// `ObjectNotFound`; a file that holds no object, or an object that is no
/// commit, is `CorruptObject`.
pub open spec fn commit_in(id: Seq<u8>, file: Option<Seq<u8>>, limit: usize) -> Result<
    CommitView,
    Error,
> {
    match file {
        None => Err(Error::ObjectNotFound),
        Some(bytes) => match loose_object_of(bytes, limit) {
            Some((ObjectKind::Commit, body)) => match commit_of(id, body) {
                Some(c) => Ok(c),
                None => Err(Error::CorruptObject),
            },
            _ => Err(Error::CorruptObject),
        },
    }
}

/// Decodes the commit `id` from the loose object file found under that id,
/// or reports why there is none.
pub fn decode_commit(id: ObjectId, file: Option<&[u8]>, limit: usize) -> (r: Result<Commit, Error>)
    ensures
        result_view(r) == commit_in(id@, file_view(file), limit),
        r matches Ok(c) ==> c@.wf() && c@.id == id@,
{
    let bytes = match file {
        Some(bytes) => bytes,
        None => {
            return Err(Error::ObjectNotFound);
        },
    };
    match decode_loose(bytes, limit) {
        Ok((ObjectKind::Commit, body)) => Commit::parse(id, body.as_slice()),
        Ok(_) => Err(Error::CorruptObject),
        Err(e) => Err(e),
    }
}

} // verus!
