//! Commit records and their text: a `tree` line, `parent` lines, an `author`
//! and a `committer` line, further header lines, a blank line, the message.

use crate::bytes::{
    append_bytes, copy_range, find_byte, find_from, has_at, lacks, lemma_find_from,
    lemma_find_from_is, lemma_has_at_join, lemma_has_at_whole, starts_at, NL,
};
use crate::error::Error;
use crate::object_id::{
    hex_decode, hex_encode, is_hex_digit, is_hex_id, is_id_len, lemma_hex_decode_encode,
    lemma_hex_encode_decode, ObjectId,
};
use crate::signature::{
    lemma_signature_of_complete, lemma_signature_of_sound, signature_of, signature_text,
    Signature, SignatureView,
};
use vstd::prelude::*;

verus! {

/// What a commit says, as plain values.
#[verifier::ext_equal]
pub struct CommitView {
    /// The id under which the commit is stored.
    pub id: Seq<u8>,
    /// The id of the tree that the commit records.
    pub tree: Seq<u8>,
    /// The ids of the parents, in the order in which they are written.
    pub parents: Seq<Seq<u8>>,
    /// Who wrote the change.
    pub author: SignatureView,
    /// Who committed it.
    pub committer: SignatureView,
    /// The header lines after the committer line, each with its line feed.
    pub extra: Seq<u8>,
    /// Everything after the blank line.
    pub message: Seq<u8>,
}

/// Whether `x` is a run of header lines: nothing at all, or text that ends
/// in a line feed and holds no empty line.
pub open spec fn is_header_block(x: Seq<u8>) -> bool {
    x.len() == 0 || (x[0] != NL && x[x.len() - 1] == NL && forall|i: int|
        0 <= i < x.len() - 1 ==> !(#[trigger] x[i] == NL && x[i + 1] == NL))
}

impl CommitView {
    /// What holds of every commit: ids of 20 or 32 bytes, well-formed
    /// signatures, and further headers without an empty line.
    pub open spec fn wf(self) -> bool {
        &&& is_id_len(self.id.len())
        &&& is_id_len(self.tree.len())
        &&& forall|i: int| 0 <= i < self.parents.len() ==> is_id_len(#[trigger] self.parents[i].len())
        &&& self.author.wf()
        &&& self.committer.wf()
        &&& is_header_block(self.extra)
    }

    /// The first line of the message, without its line feed.
    pub open spec fn title(self) -> Seq<u8> {
        title_of(self.message)
    }

    /// When the commit was made: the committer's seconds since the epoch.
    pub open spec fn time(self) -> int {
        self.committer.timestamp
    }
}

/// The message up to its first line feed, or all of it where it has none.
pub open spec fn title_of(message: Seq<u8>) -> Seq<u8> {
    message.subrange(0, find_from(message, 0, NL))
}

/// The bytes of `tree `.
pub open spec fn tree_word() -> Seq<u8> {
    seq![0x74, 0x72, 0x65, 0x65, 0x20]
}

/// The bytes of `parent `.
pub open spec fn parent_word() -> Seq<u8> {
    seq![0x70, 0x61, 0x72, 0x65, 0x6e, 0x74, 0x20]
}

/// The bytes of `author `.
pub open spec fn author_word() -> Seq<u8> {
    seq![0x61, 0x75, 0x74, 0x68, 0x6f, 0x72, 0x20]
}

/// The bytes of `committer `.
pub open spec fn committer_word() -> Seq<u8> {
    seq![0x63, 0x6f, 0x6d, 0x6d, 0x69, 0x74, 0x74, 0x65, 0x72, 0x20]
}

/// A header line that names an object: the word, the id in hex, a line feed.
pub open spec fn id_line_text(word: Seq<u8>, id: Seq<u8>) -> Seq<u8> {
    word + hex_encode(id) + seq![NL]
}

/// One `parent` line for each parent, in order.
pub open spec fn parents_text(parents: Seq<Seq<u8>>) -> Seq<u8>
    decreases parents.len(),
{
    if parents.len() == 0 {
        Seq::<u8>::empty()
    } else {
        id_line_text(parent_word(), parents[0]) + parents_text(parents.drop_first())
    }
}

/// A header line that names a person: the word, the signature, a line feed.
pub open spec fn signature_line_text(word: Seq<u8>, s: SignatureView) -> Seq<u8> {
    word + signature_text(s) + seq![NL]
}

/// The text of a commit, as it is stored.
pub open spec fn commit_text(c: CommitView) -> Seq<u8> {
    id_line_text(tree_word(), c.tree) + parents_text(c.parents) + signature_line_text(
        author_word(),
        c.author,
    ) + signature_line_text(committer_word(), c.committer) + c.extra + seq![NL] + c.message
}

/// The id line that starts at `at`, and where the next line starts.
pub open spec fn id_line_at(raw: Seq<u8>, at: int, word: Seq<u8>) -> Option<(Seq<u8>, int)> {
    let start = at + word.len();
    let end = find_from(raw, start, NL);
    if has_at(raw, at, word) && end < raw.len() && is_hex_id(raw.subrange(start, end)) {
        Some((hex_decode(raw.subrange(start, end)), end + 1))
    } else {
        None
    }
}

/// The parent lines that start at `at`, and where the line after them
/// starts. `None` where a line starts with `parent ` and names no id.
pub open spec fn parents_at(raw: Seq<u8>, at: int) -> Option<(Seq<Seq<u8>>, int)>
    decreases raw.len() - at,
{
    if has_at(raw, at, parent_word()) {
        match id_line_at(raw, at, parent_word()) {
            Some((parent, next)) => if at < next {
                match parents_at(raw, next) {
                    Some((rest, end)) => Some((seq![parent] + rest, end)),
                    None => None,
                }
            } else {
                None
            },
            None => None,
        }
    } else {
        Some((Seq::<Seq<u8>>::empty(), at))
    }
}

/// The signature line that starts at `at`, and where the next line starts.
pub open spec fn signature_line_at(raw: Seq<u8>, at: int, word: Seq<u8>) -> Option<
    (SignatureView, int),
> {
    let start = at + word.len();
    let end = find_from(raw, start, NL);
    if has_at(raw, at, word) && end < raw.len() {
        match signature_of(raw.subrange(start, end)) {
            Some(s) => Some((s, end + 1)),
            None => None,
        }
    } else {
        None
    }
}

/// Where the blank line stands that ends the headers which start at `at`.
pub open spec fn blank_line_at(raw: Seq<u8>, at: int) -> Option<int>
    decreases raw.len() - at,
{
    if at < 0 || at >= raw.len() {
        None
    } else if raw[at] == NL {
        Some(at)
    } else {
        let end = find_from(raw, at, NL);
        if at <= end < raw.len() {
            blank_line_at(raw, end + 1)
        } else {
            None
        }
    }
}

/// The commit that `raw` is the text of, if it is the text of one, stored
/// under `id`.
#[verifier::opaque]
pub open spec fn commit_of(id: Seq<u8>, raw: Seq<u8>) -> Option<CommitView> {
    match id_line_at(raw, 0, tree_word()) {
        Some((tree, a)) => match parents_at(raw, a) {
            Some((parents, b)) => match signature_line_at(raw, b, author_word()) {
                Some((author, c)) => match signature_line_at(raw, c, committer_word()) {
                    Some((committer, d)) => match blank_line_at(raw, d) {
                        Some(e) => if is_id_len(id.len()) {
                            Some(
                                CommitView {
                                    id,
                                    tree,
                                    parents,
                                    author,
                                    committer,
                                    extra: raw.subrange(d, e),
                                    message: raw.subrange(e + 1, raw.len() as int),
                                },
                            )
                        } else {
                            None
                        },
                        None => None,
                    },
                    None => None,
                },
                None => None,
            },
            None => None,
        },
        None => None,
    }
}

proof fn lemma_hex_lacks_nl(id: Seq<u8>)
    ensures
        lacks(hex_encode(id), NL),
{
    lemma_hex_decode_encode(id);
    assert forall|i: int| 0 <= i < hex_encode(id).len() implies #[trigger] hex_encode(id)[i]
        != NL by {
        assert(is_hex_digit(hex_encode(id)[i]));
    }
}

/// An id line that is read at `at` stands there, and names an id.
proof fn lemma_id_line_sound(raw: Seq<u8>, at: int, word: Seq<u8>, id: Seq<u8>, next: int)
    requires
        0 <= at,
        id_line_at(raw, at, word) == Some((id, next)),
    ensures
        is_id_len(id.len()),
        has_at(raw, at, id_line_text(word, id)),
        next == at + id_line_text(word, id).len(),
{
    let start = at + word.len();
    let end = find_from(raw, start, NL);
    lemma_find_from(raw, start, NL);
    let hex = raw.subrange(start, end);
    lemma_hex_encode_decode(hex);
    assert(has_at(raw, end, seq![NL])) by {
        assert(raw.subrange(end, end + 1) =~= seq![NL]);
    }
    lemma_has_at_join(raw, at, word, hex);
    lemma_has_at_join(raw, at, word + hex, seq![NL]);
}

/// Where the text of an id line stands, it is read, whatever follows.
proof fn lemma_id_line_complete(raw: Seq<u8>, at: int, word: Seq<u8>, id: Seq<u8>)
    requires
        0 <= at,
        is_id_len(id.len()),
        has_at(raw, at, id_line_text(word, id)),
    ensures
        id_line_at(raw, at, word) == Some((id, at + id_line_text(word, id).len())),
        at < at + id_line_text(word, id).len() <= raw.len(),
{
    let hex = hex_encode(id);
    let start = at + word.len();
    let end = start + hex.len();
    assert(has_at(raw, at, word) && has_at(raw, start, hex) && has_at(raw, end, seq![NL])) by {
        lemma_has_at_join(raw, at, word + hex, seq![NL]);
        lemma_has_at_join(raw, at, word, hex);
    }
    assert(raw[end] == NL) by {
        assert(raw.subrange(end, end + 1)[0] == NL);
    }
    assert forall|j: int| start <= j < end implies #[trigger] raw[j] != NL by {
        lemma_hex_lacks_nl(id);
        assert(raw.subrange(start, end)[j - start] == hex[j - start]);
    }
    assert(find_from(raw, start, NL) == end) by {
        lemma_find_from_is(raw, start, NL, end);
    }
    assert(is_hex_id(hex) && hex_decode(hex) == id) by {
        lemma_hex_decode_encode(id);
    }
}

/// Parent lines that are read at `at` stand there, and name ids.
proof fn lemma_parents_sound(raw: Seq<u8>, at: int, all: Seq<Seq<u8>>, end: int)
    requires
        0 <= at <= raw.len(),
        parents_at(raw, at) == Some((all, end)),
    ensures
        has_at(raw, at, parents_text(all)),
        end == at + parents_text(all).len(),
        forall|i: int| 0 <= i < all.len() ==> is_id_len(#[trigger] all[i].len()),
        !has_at(raw, end, parent_word()),
    decreases raw.len() - at,
{
    if has_at(raw, at, parent_word()) {
        let (parent, next) = id_line_at(raw, at, parent_word())->0;
        let (rest, end1) = parents_at(raw, next)->0;
        lemma_id_line_sound(raw, at, parent_word(), parent, next);
        lemma_parents_sound(raw, next, rest, end1);
        assert(all.drop_first() =~= rest);
        lemma_has_at_join(raw, at, id_line_text(parent_word(), parent), parents_text(rest));
        assert forall|i: int| 0 <= i < all.len() implies is_id_len(#[trigger] all[i].len()) by {
            if i > 0 {
                assert(all[i] == rest[i - 1]);
            }
        }
    } else {
        assert(raw.subrange(at, at) =~= Seq::<u8>::empty());
    }
}

/// Where the text of parent lines stands, followed by something that does
/// not start with `parent `, the lines are read.
proof fn lemma_parents_complete(raw: Seq<u8>, at: int, parents: Seq<Seq<u8>>)
    requires
        0 <= at,
        forall|i: int| 0 <= i < parents.len() ==> is_id_len(#[trigger] parents[i].len()),
        has_at(raw, at, parents_text(parents)),
        !has_at(raw, at + parents_text(parents).len(), parent_word()),
    ensures
        parents_at(raw, at) == Some((parents, at + parents_text(parents).len())),
    decreases parents.len(),
{
    if parents.len() > 0 {
        let first = id_line_text(parent_word(), parents[0]);
        let rest = parents.drop_first();
        lemma_has_at_join(raw, at, first, parents_text(rest));
        lemma_id_line_complete(raw, at, parent_word(), parents[0]);
        lemma_has_at_join(raw, at, parent_word() + hex_encode(parents[0]), seq![NL]);
        lemma_has_at_join(raw, at, parent_word(), hex_encode(parents[0]));
        assert forall|i: int| 0 <= i < rest.len() implies is_id_len(#[trigger] rest[i].len()) by {
            assert(rest[i] == parents[i + 1]);
        }
        lemma_parents_complete(raw, at + first.len(), rest);
    }
}

/// A signature line that is read at `at` stands there.
proof fn lemma_signature_line_sound(
    raw: Seq<u8>,
    at: int,
    word: Seq<u8>,
    s: SignatureView,
    next: int,
)
    requires
        0 <= at,
        signature_line_at(raw, at, word) == Some((s, next)),
    ensures
        s.wf(),
        has_at(raw, at, signature_line_text(word, s)),
        next == at + signature_line_text(word, s).len(),
{
    let start = at + word.len();
    let end = find_from(raw, start, NL);
    lemma_find_from(raw, start, NL);
    let line = raw.subrange(start, end);
    lemma_signature_of_sound(line);
    assert(has_at(raw, end, seq![NL])) by {
        assert(raw.subrange(end, end + 1) =~= seq![NL]);
    }
    lemma_has_at_join(raw, at, word, line);
    lemma_has_at_join(raw, at, word + line, seq![NL]);
}

/// Where the text of a signature line stands, it is read.
proof fn lemma_signature_line_complete(raw: Seq<u8>, at: int, word: Seq<u8>, s: SignatureView)
    requires
        0 <= at,
        s.wf(),
        has_at(raw, at, signature_line_text(word, s)),
    ensures
        signature_line_at(raw, at, word) == Some((s, at + signature_line_text(word, s).len())),
{
    let line = signature_text(s);
    lemma_signature_of_complete(s);
    lemma_has_at_join(raw, at, word + line, seq![NL]);
    lemma_has_at_join(raw, at, word, line);
    let start = at + word.len();
    let end = start + line.len();
    assert(raw[end] == NL) by {
        assert(raw.subrange(end, end + 1)[0] == NL);
    }
    assert(lacks(line, NL)) by {
        assert(signature_of(line) is Some);
    }
    assert forall|j: int| start <= j < end implies #[trigger] raw[j] != NL by {
        assert(raw.subrange(start, end)[j - start] == line[j - start]);
    }
    lemma_find_from_is(raw, start, NL, end);
}

/// Between `at` and the blank line that is found from there lies a run of
/// header lines.
proof fn lemma_blank_line_sound(raw: Seq<u8>, at: int, e: int)
    requires
        blank_line_at(raw, at) == Some(e),
    ensures
        0 <= at <= e < raw.len(),
        raw[e] == NL,
        is_header_block(raw.subrange(at, e)),
    decreases raw.len() - at,
{
    if raw[at] != NL {
        let end = find_from(raw, at, NL);
        lemma_find_from(raw, at, NL);
        lemma_blank_line_sound(raw, end + 1, e);
        let x = raw.subrange(at, e);
        let tail = raw.subrange(end + 1, e);
        assert forall|i: int| 0 <= i < x.len() - 1 implies !(#[trigger] x[i] == NL && x[i + 1]
            == NL) by {
            if at + i < end {
                assert(raw[at + i] != NL);
            } else if at + i == end {
                if e > end + 1 {
                    assert(tail[0] == x[i + 1]);
                }
            } else {
                assert(tail[i - (end + 1 - at)] == x[i]);
                assert(tail[i + 1 - (end + 1 - at)] == x[i + 1]);
            }
        }
    }
}

/// Where a run of header lines stands, followed by a line feed, the blank
/// line is found right after it.
proof fn lemma_blank_line_complete(raw: Seq<u8>, at: int, x: Seq<u8>)
    requires
        0 <= at,
        is_header_block(x),
        has_at(raw, at, x + seq![NL]),
    ensures
        blank_line_at(raw, at) == Some(at + x.len()),
    decreases x.len(),
{
    lemma_has_at_join(raw, at, x, seq![NL]);
    assert(raw[at + x.len()] == NL) by {
        assert(raw.subrange(at + x.len(), at + x.len() + 1)[0] == NL);
    }
    assert forall|j: int| 0 <= j < x.len() implies raw[at + j] == #[trigger] x[j] by {
        assert(raw.subrange(at, at + x.len())[j] == x[j]);
    }
    if x.len() > 0 {
        let k = find_from(x, 0, NL);
        lemma_find_from(x, 0, NL);
        assert forall|j: int| at <= j < at + k implies #[trigger] raw[j] != NL by {
            assert(raw[at + (j - at)] == x[j - at]);
        }
        lemma_find_from_is(raw, at, NL, at + k);
        let rest = x.subrange(k + 1, x.len() as int);
        assert(is_header_block(rest)) by {
            if rest.len() > 0 {
                assert(rest[0] == x[k + 1]);
                assert(!(x[k] == NL && x[k + 1] == NL));
                assert(rest[rest.len() - 1] == x[x.len() - 1]);
                assert forall|i: int| 0 <= i < rest.len() - 1 implies !(#[trigger] rest[i] == NL
                    && rest[i + 1] == NL) by {
                    assert(rest[i] == x[k + 1 + i]);
                    assert(rest[i + 1] == x[k + 1 + i + 1]);
                    assert(!(x[k + 1 + i] == NL && x[k + 1 + i + 1] == NL));
                }
            }
        }
        assert(has_at(raw, at + k + 1, rest + seq![NL])) by {
            assert(raw.subrange(at + k + 1, at + k + 1 + rest.len() + 1) =~= rest + seq![NL]);
        }
        lemma_blank_line_complete(raw, at + k + 1, rest);
    }
}

proof fn lemma_words_differ(raw: Seq<u8>, at: int)
    requires
        has_at(raw, at, author_word()),
    ensures
        !has_at(raw, at, parent_word()),
{
}

/// Whether the text reads as a commit does not depend on the id under which
/// it is stored.
proof fn lemma_commit_of_any_id(id: Seq<u8>, other: Seq<u8>, raw: Seq<u8>)
    requires
        is_id_len(id.len()),
        is_id_len(other.len()),
    ensures
        commit_of(id, raw) is Some <==> commit_of(other, raw) is Some,
{
    reveal(commit_of);
}

/// A text that reads as a commit is the text of that commit, and the commit
/// is well formed.
pub proof fn lemma_commit_of_sound(id: Seq<u8>, raw: Seq<u8>, c: CommitView)
    requires
        commit_of(id, raw) == Some(c),
    ensures
        c.wf(),
        c.id == id,
        commit_text(c) == raw,
{
    reveal(commit_of);
    let (tree, a) = id_line_at(raw, 0, tree_word())->0;
    lemma_id_line_sound(raw, 0, tree_word(), tree, a);
    let (parents, b) = parents_at(raw, a)->0;
    lemma_parents_sound(raw, a, parents, b);
    let (author, k) = signature_line_at(raw, b, author_word())->0;
    lemma_signature_line_sound(raw, b, author_word(), author, k);
    let (committer, d) = signature_line_at(raw, k, committer_word())->0;
    lemma_signature_line_sound(raw, k, committer_word(), committer, d);
    let e = blank_line_at(raw, d)->0;
    lemma_blank_line_sound(raw, d, e);
    let t1 = id_line_text(tree_word(), tree);
    let t2 = parents_text(parents);
    let t3 = signature_line_text(author_word(), author);
    let t4 = signature_line_text(committer_word(), committer);
    assert(has_at(raw, e, seq![NL])) by {
        assert(raw.subrange(e, e + 1) =~= seq![NL]);
    }
    lemma_has_at_join(raw, 0, t1, t2);
    lemma_has_at_join(raw, 0, t1 + t2, t3);
    lemma_has_at_join(raw, 0, t1 + t2 + t3, t4);
    lemma_has_at_join(raw, 0, t1 + t2 + t3 + t4, c.extra);
    lemma_has_at_join(raw, 0, t1 + t2 + t3 + t4 + c.extra, seq![NL]);
    lemma_has_at_join(raw, 0, t1 + t2 + t3 + t4 + c.extra + seq![NL], c.message);
    lemma_has_at_whole(raw, commit_text(c));
}

/// Where the parts of a commit's text lie.
proof fn lemma_commit_layout(c: CommitView)
    ensures
        ({
            let raw = commit_text(c);
            let t1 = id_line_text(tree_word(), c.tree);
            let t2 = parents_text(c.parents);
            let t3 = signature_line_text(author_word(), c.author);
            let t4 = signature_line_text(committer_word(), c.committer);
            let a = t1.len() as int;
            let b = a + t2.len();
            let k = b + t3.len();
            let d = k + t4.len();
            let e = d + c.extra.len();
            &&& raw.len() == e + 1 + c.message.len()
            &&& has_at(raw, 0, t1)
            &&& has_at(raw, a, t2)
            &&& has_at(raw, b, t3)
            &&& has_at(raw, k, t4)
            &&& has_at(raw, d, c.extra)
            &&& has_at(raw, d, c.extra + seq![NL])
            &&& has_at(raw, e + 1, c.message)
        }),
{
    let raw = commit_text(c);
    let t1 = id_line_text(tree_word(), c.tree);
    let t2 = parents_text(c.parents);
    let t3 = signature_line_text(author_word(), c.author);
    let t4 = signature_line_text(committer_word(), c.committer);
    let x = c.extra;
    let m = c.message;
    let nl = seq![NL];
    let a = t1.len() as int;
    let b = a + t2.len();
    let k = b + t3.len();
    let d = k + t4.len();
    let e = d + x.len();
    assert(raw.subrange(0, a) =~= t1);
    assert(raw.subrange(a, b) =~= t2);
    assert(raw.subrange(b, k) =~= t3);
    assert(raw.subrange(k, d) =~= t4);
    assert(raw.subrange(d, e) =~= x);
    assert(raw.subrange(d, e + 1) =~= x + nl);
    assert(raw.subrange(e + 1, e + 1 + m.len()) =~= m);
}

/// The text of a well-formed commit reads as that commit.
pub proof fn lemma_commit_of_complete(c: CommitView)
    requires
        c.wf(),
    ensures
        commit_of(c.id, commit_text(c)) == Some(c),
{
    let raw = commit_text(c);
    let t1 = id_line_text(tree_word(), c.tree);
    let t2 = parents_text(c.parents);
    let t3 = signature_line_text(author_word(), c.author);
    let t4 = signature_line_text(committer_word(), c.committer);
    let a = t1.len() as int;
    let b = a + t2.len();
    let k = b + t3.len();
    let d = k + t4.len();
    let e = d + c.extra.len();
    lemma_commit_layout(c);
    assert(id_line_at(raw, 0, tree_word()) == Some((c.tree, a))) by {
        lemma_id_line_complete(raw, 0, tree_word(), c.tree);
    }
    assert(parents_at(raw, a) == Some((c.parents, b))) by {
        lemma_has_at_join(raw, b, author_word() + signature_text(c.author), seq![NL]);
        lemma_has_at_join(raw, b, author_word(), signature_text(c.author));
        lemma_words_differ(raw, b);
        lemma_parents_complete(raw, a, c.parents);
    }
    assert(signature_line_at(raw, b, author_word()) == Some((c.author, k))) by {
        lemma_signature_line_complete(raw, b, author_word(), c.author);
    }
    assert(signature_line_at(raw, k, committer_word()) == Some((c.committer, d))) by {
        lemma_signature_line_complete(raw, k, committer_word(), c.committer);
    }
    assert(blank_line_at(raw, d) == Some(e)) by {
        lemma_blank_line_complete(raw, d, c.extra);
    }
    assert(commit_of(c.id, raw) == Some(c)) by {
        reveal(commit_of);
    }
}

/// Two well-formed commits with the same text differ in nothing but,
/// perhaps, the id under which they are stored.
pub proof fn lemma_commit_text_injective(a: CommitView, b: CommitView)
    requires
        a.wf(),
        b.wf(),
        commit_text(a) == commit_text(b),
    ensures
        a == (CommitView { id: a.id, ..b }),
{
    let b2 = CommitView { id: a.id, ..b };
    lemma_commit_of_complete(a);
    lemma_commit_of_complete(b2);
}

/// The view of a commit that was or was not had.
pub open spec fn result_view(r: Result<Commit, Error>) -> Result<CommitView, Error> {
    match r {
        Ok(c) => Ok(c@),
        Err(e) => Err(e),
    }
}

/// The views of a run of object ids.
pub open spec fn ids_view(ids: Seq<ObjectId>) -> Seq<Seq<u8>> {
    Seq::new(ids.len(), |i: int| ids[i]@)
}

/// One commit of the history: what it records, who made it, and what it
/// follows.
#[derive(Debug, PartialEq, Eq)]
pub struct Commit {
    id: ObjectId,
    tree: ObjectId,
    parents: Vec<ObjectId>,
    author: Signature,
    committer: Signature,
    extra: Vec<u8>,
    message: Vec<u8>,
}

impl View for Commit {
    type V = CommitView;

    closed spec fn view(&self) -> CommitView {
        CommitView {
            id: self.id@,
            tree: self.tree@,
            parents: ids_view(self.parents@),
            author: self.author@,
            committer: self.committer@,
            extra: self.extra@,
            message: self.message@,
        }
    }
}

fn tree_bytes() -> (w: [u8; 5])
    ensures
        w@ == tree_word(),
{
    let w: [u8; 5] = [0x74, 0x72, 0x65, 0x65, 0x20];
    w
}

fn parent_bytes() -> (w: [u8; 7])
    ensures
        w@ == parent_word(),
{
    let w: [u8; 7] = [0x70, 0x61, 0x72, 0x65, 0x6e, 0x74, 0x20];
    w
}

fn author_bytes() -> (w: [u8; 7])
    ensures
        w@ == author_word(),
{
    let w: [u8; 7] = [0x61, 0x75, 0x74, 0x68, 0x6f, 0x72, 0x20];
    w
}

fn committer_bytes() -> (w: [u8; 10])
    ensures
        w@ == committer_word(),
{
    let w: [u8; 10] = [0x63, 0x6f, 0x6d, 0x6d, 0x69, 0x74, 0x74, 0x65, 0x72, 0x20];
    w
}

fn read_id_line(raw: &[u8], at: usize, word: &[u8]) -> (r: Option<(ObjectId, usize)>)
    requires
        at <= raw@.len(),
    ensures
        match r {
            Some((id, next)) => id_line_at(raw@, at as int, word@) == Some((id@, next as int))
                && at < next <= raw@.len(),
            None => id_line_at(raw@, at as int, word@) is None,
        },
{
    let n: usize = raw.len();
    if !starts_at(raw, at, word) {
        return None;
    }
    let start: usize = at + word.len();
    let end: usize = find_byte(raw, start, NL);
    if end >= n {
        return None;
    }
    match ObjectId::from_hex(vstd::slice::slice_subrange(raw, start, end)) {
        Ok(id) => Some((id, end + 1)),
        Err(_) => None,
    }
}

fn read_signature_line(raw: &[u8], at: usize, word: &[u8]) -> (r: Option<(Signature, usize)>)
    requires
        at <= raw@.len(),
    ensures
        match r {
            Some((s, next)) => signature_line_at(raw@, at as int, word@) == Some(
                (s@, next as int),
            ) && at < next <= raw@.len(),
            None => signature_line_at(raw@, at as int, word@) is None,
        },
{
    let n: usize = raw.len();
    if !starts_at(raw, at, word) {
        return None;
    }
    let start: usize = at + word.len();
    let end: usize = find_byte(raw, start, NL);
    if end >= n {
        return None;
    }
    match Signature::parse(vstd::slice::slice_subrange(raw, start, end)) {
        Some(s) => Some((s, end + 1)),
        None => None,
    }
}

fn find_blank_line(raw: &[u8], at: usize) -> (r: Option<usize>)
    requires
        at <= raw@.len(),
    ensures
        match r {
            Some(e) => blank_line_at(raw@, at as int) == Some(e as int) && at <= e < raw@.len(),
            None => blank_line_at(raw@, at as int) is None,
        },
{
    let mut i: usize = at;
    while i < raw.len()
        invariant
            at <= i <= raw@.len(),
            blank_line_at(raw@, at as int) == blank_line_at(raw@, i as int),
        decreases raw@.len() - i,
    {
        if raw[i] == NL {
            return Some(i);
        }
        let end: usize = find_byte(raw, i, NL);
        if end >= raw.len() {
            return None;
        }
        i = end + 1;
    }
    None
}

fn read_parents(raw: &[u8], from: usize) -> (r: Option<(Vec<ObjectId>, usize)>)
    requires
        from <= raw@.len(),
    ensures
        match r {
            Some((parents, next)) => parents_at(raw@, from as int) == Some(
                (ids_view(parents@), next as int),
            ) && from <= next <= raw@.len(),
            None => parents_at(raw@, from as int) is None,
        },
{
    let parent_w = parent_bytes();
    let mut parents: Vec<ObjectId> = Vec::new();
    let mut at: usize = from;
    while starts_at(raw, at, parent_w.as_slice())
        invariant
            from <= at <= raw@.len(),
            parent_w@ == parent_word(),
            match parents_at(raw@, at as int) {
                Some((rest, end)) => parents_at(raw@, from as int) == Some(
                    (ids_view(parents@) + rest, end),
                ),
                None => parents_at(raw@, from as int) is None,
            },
        decreases raw@.len() - at,
    {
        match read_id_line(raw, at, parent_w.as_slice()) {
            Some((parent, next)) => {
                parents.push(parent);
                at = next;
            },
            None => {
                return None;
            },
        }
    }
    Some((parents, at))
}

/// A text that does not read as a commit is the text of none.
proof fn lemma_not_a_commit(id: Seq<u8>, raw: Seq<u8>)
    requires
        is_id_len(id.len()),
        commit_of(id, raw) is None,
    ensures
        forall|c: CommitView| c.wf() ==> #[trigger] commit_text(c) != raw,
{
    assert forall|c: CommitView| c.wf() implies #[trigger] commit_text(c) != raw by {
        lemma_commit_of_complete(c);
        lemma_commit_of_any_id(id, c.id, raw);
    }
}

impl Commit {
    /// Every commit is well formed.
    #[verifier::type_invariant]
    pub open spec fn well_formed(self) -> bool {
        self@.wf()
    }

    /// Reads a commit from its text, as stored under `id`. Anything that is
    /// not the text of a commit is refused as corrupt.
    pub fn parse(id: ObjectId, raw: &[u8]) -> (r: Result<Commit, Error>)
        ensures
            match r {
                Ok(c) => c@.wf() && c@.id == id@ && commit_text(c@) == raw@ && commit_of(
                    id@,
                    raw@,
                ) == Some(c@),
                Err(e) => e == Error::CorruptObject && commit_of(id@, raw@) is None
                    && forall|c: CommitView| c.wf() ==> #[trigger] commit_text(c) != raw@,
            },
    {
        proof {
            use_type_invariant(&id);
        }
        let n: usize = raw.len();
        let tree_w = tree_bytes();
        let author_w = author_bytes();
        let committer_w = committer_bytes();
        let (tree, after_tree) = match read_id_line(raw, 0, tree_w.as_slice()) {
            Some(found) => found,
            None => {
                proof {
                    reveal(commit_of);
                    lemma_not_a_commit(id@, raw@);
                }
                return Err(Error::CorruptObject);
            },
        };
        let (parents, after_parents) = match read_parents(raw, after_tree) {
            Some(found) => found,
            None => {
                proof {
                    reveal(commit_of);
                    lemma_not_a_commit(id@, raw@);
                }
                return Err(Error::CorruptObject);
            },
        };
        let (author, after_author) = match read_signature_line(
            raw,
            after_parents,
            author_w.as_slice(),
        ) {
            Some(found) => found,
            None => {
                proof {
                    reveal(commit_of);
                    lemma_not_a_commit(id@, raw@);
                }
                return Err(Error::CorruptObject);
            },
        };
        let (committer, after_committer) = match read_signature_line(
            raw,
            after_author,
            committer_w.as_slice(),
        ) {
            Some(found) => found,
            None => {
                proof {
                    reveal(commit_of);
                    lemma_not_a_commit(id@, raw@);
                }
                return Err(Error::CorruptObject);
            },
        };
        let blank: usize = match find_blank_line(raw, after_committer) {
            Some(e) => e,
            None => {
                proof {
                    reveal(commit_of);
                    lemma_not_a_commit(id@, raw@);
                }
                return Err(Error::CorruptObject);
            },
        };
        let extra = copy_range(raw, after_committer, blank);
        let message = copy_range(raw, blank + 1, n);
        let ghost view = CommitView {
            id: id@,
            tree: tree@,
            parents: ids_view(parents@),
            author: author@,
            committer: committer@,
            extra: extra@,
            message: message@,
        };
        proof {
            assert(commit_of(id@, raw@) == Some(view)) by {
                reveal(commit_of);
            }
            lemma_commit_of_sound(id@, raw@, view);
        }
        Ok(Commit { id, tree, parents, author, committer, extra, message })
    }

    /// Writes the commit as text, as it is stored.
    pub fn encode(&self) -> (r: Vec<u8>)
        ensures
            r@ == commit_text(self@),
    {
        let tree_w = tree_bytes();
        let parent_w = parent_bytes();
        let author_w = author_bytes();
        let committer_w = committer_bytes();
        let mut out: Vec<u8> = Vec::new();
        append_bytes(&mut out, tree_w.as_slice());
        let tree_hex = self.tree.to_hex();
        append_bytes(&mut out, tree_hex.as_slice());
        out.push(NL);
        let ghost head = out@;
        assert(ids_view(self.parents@).skip(0) =~= ids_view(self.parents@));
        let mut i: usize = 0;
        while i < self.parents.len()
            invariant
                i <= self.parents@.len(),
                parent_w@ == parent_word(),
                out@ + parents_text(ids_view(self.parents@).skip(i as int)) == head + parents_text(
                    ids_view(self.parents@),
                ),
            decreases self.parents@.len() - i,
        {
            let ghost left = ids_view(self.parents@).skip(i as int);
            append_bytes(&mut out, parent_w.as_slice());
            let hex = self.parents[i].to_hex();
            append_bytes(&mut out, hex.as_slice());
            out.push(NL);
            proof {
                assert(left.drop_first() =~= ids_view(self.parents@).skip(i + 1));
            }
            i += 1;
        }
        append_bytes(&mut out, author_w.as_slice());
        let author = self.author.encode();
        append_bytes(&mut out, author.as_slice());
        out.push(NL);
        append_bytes(&mut out, committer_w.as_slice());
        let committer = self.committer.encode();
        append_bytes(&mut out, committer.as_slice());
        out.push(NL);
        append_bytes(&mut out, self.extra.as_slice());
        out.push(NL);
        append_bytes(&mut out, self.message.as_slice());
        out
    }

    /// The id under which the commit is stored.
    pub fn id(&self) -> (r: &ObjectId)
        ensures
            r@ == self@.id,
    {
        &self.id
    }

    /// The id of the tree that the commit records.
    pub fn tree(&self) -> (r: &ObjectId)
        ensures
            r@ == self@.tree,
    {
        &self.tree
    }

    /// The ids of the parents, in the order in which they are written: none
    /// for a root commit, two or more for a merge.
    pub fn parents(&self) -> (r: &Vec<ObjectId>)
        ensures
            ids_view(r@) == self@.parents,
    {
        &self.parents
    }

    /// Who wrote the change.
    pub fn author(&self) -> (r: &Signature)
        ensures
            r@ == self@.author,
    {
        &self.author
    }

    /// Who committed the change.
    pub fn committer(&self) -> (r: &Signature)
        ensures
            r@ == self@.committer,
    {
        &self.committer
    }

    /// The header lines after the committer line, as they are stored.
    pub fn extra_headers(&self) -> (r: &[u8])
        ensures
            r@ == self@.extra,
    {
        self.extra.as_slice()
    }

    /// The message: everything after the blank line.
    pub fn message(&self) -> (r: &[u8])
        ensures
            r@ == self@.message,
    {
        self.message.as_slice()
    }

    /// The first line of the message, without its line feed. An empty
    /// message has an empty title.
    pub fn title(&self) -> (r: &[u8])
        ensures
            r@ == self@.title(),
    {
        title(self.message.as_slice())
    }

    /// When the commit was made: the committer's seconds since the epoch.
    pub fn time(&self) -> (r: i64)
        ensures
            r == self@.time(),
            r >= 0,
    {
        self.committer.timestamp()
    }
}

/// The first line of `message`, without its line feed.
pub fn title(message: &[u8]) -> (r: &[u8])
    ensures
        r@ == title_of(message@),
{
    let end: usize = find_byte(message, 0, NL);
    vstd::slice::slice_subrange(message, 0, end)
}

impl Clone for Commit {
    fn clone(&self) -> (r: Self)
        ensures
            r@ == self@,
    {
        proof {
            use_type_invariant(self);
        }
        let mut parents: Vec<ObjectId> = Vec::new();
        let mut i: usize = 0;
        while i < self.parents.len()
            invariant
                i <= self.parents@.len(),
                ids_view(parents@) == ids_view(self.parents@).take(i as int),
            decreases self.parents@.len() - i,
        {
            let p = self.parents[i].clone();
            let ghost before = parents@;
            assert(ids_view(before).len() == i);
            parents.push(p);
            assert forall|j: int| 0 <= j < i + 1 implies ids_view(parents@)[j] == ids_view(
                self.parents@,
            ).take(i + 1)[j] by {
                if j < i {
                    assert(ids_view(before)[j] == ids_view(self.parents@).take(i as int)[j]);
                }
            }
            i += 1;
        }
        assert(ids_view(parents@) =~= ids_view(self.parents@));
        let extra = self.extra.clone();
        let message = self.message.clone();
        Commit {
            id: self.id.clone(),
            tree: self.tree.clone(),
            parents,
            author: self.author.clone(),
            committer: self.committer.clone(),
            extra,
            message,
        }
    }
}

} // verus!
