//! What is shown of a commit: its id, who wrote it, its title and its date.

use crate::commit::{Commit, CommitView};
use crate::object_id::{hex_encode, is_hex_digit};
use crate::text::{ascii_chars, is_text, lossy_text, to_text};
use vstd::utf8::valid_utf8;
use vstd::prelude::*;
use vstd::string::StringExecFns;

verus! {

/// A commit as it is listed.
#[derive(Debug, PartialEq, Eq)]
pub struct CommitSummary {
    /// The id in lowercase hex.
    pub id: String,
    /// Who wrote the change: the name, then the email in square brackets.
    pub author: String,
    /// The title of the message.
    pub message: String,
    /// When the commit was made, in seconds since the epoch.
    pub date: i64,
}

/// How an author is shown: the name, a space, the email in square brackets.
pub open spec fn author_text(name: Seq<u8>, email: Seq<u8>) -> Seq<char> {
    lossy_text(name) + " ["@ + lossy_text(email) + "]"@
}

/// How a commit is shown on its own page: the name, the email between
/// `&lt;` and `&gt;`, a line break, the title.
pub open spec fn fragment_text(c: CommitView) -> Seq<char> {
    lossy_text(c.author.name) + " &lt;"@ + lossy_text(c.author.email) + "&gt;<br/>"@ + lossy_text(
        c.title(),
    )
}

/// The id of `c` as text.
pub fn id_text(c: &Commit) -> (text: String)
    ensures
        text@ == ascii_chars(hex_encode(c@.id)),
{
    let hex = c.id().to_hex();
    proof {
        assert forall|i: int| 0 <= i < hex@.len() implies #[trigger] hex@[i] < 128 by {
            assert(is_hex_digit(hex@[i]));
        }
    }
    to_text(hex.as_slice())
}

/// Who wrote `c`, as text.
pub fn author_line(c: &Commit) -> (text: String)
    ensures
        text@ == author_text(c@.author.name, c@.author.email),
{
    let mut text = to_text(c.author().name());
    text.append(" [");
    let email = to_text(c.author().email());
    text.append(email.as_str());
    text.append("]");
    text
}

/// The title of `c`, as text.
pub fn title_text(c: &Commit) -> (text: String)
    ensures
        text@ == lossy_text(c@.title()),
{
    to_text(c.title())
}

/// Whether what is shown of `c` is not what was written: whether the name
/// or the email of its author, or its title, holds bytes that are not valid
/// UTF-8 and are shown as something else.
pub open spec fn has_replaced_text(c: CommitView) -> bool {
    !valid_utf8(c.author.name) || !valid_utf8(c.author.email) || !valid_utf8(c.title())
}

/// Tells whether what is shown of `c` is not what was written. Such a
/// commit is listed all the same.
pub fn encoding_warning(c: &Commit) -> (r: bool)
    ensures
        r == has_replaced_text(c@),
{
    !is_text(c.author().name()) || !is_text(c.author().email()) || !is_text(c.title())
}

/// What is listed of `c`.
pub fn summarize(c: &Commit) -> (s: CommitSummary)
    ensures
        s.id@ == ascii_chars(hex_encode(c@.id)),
        s.author@ == author_text(c@.author.name, c@.author.email),
        s.message@ == lossy_text(c@.title()),
        s.date == c@.time(),
{
    CommitSummary { id: id_text(c), author: author_line(c), message: title_text(c), date: c.time() }
}

/// What is listed of each of `commits`, in the same order.
pub fn summarize_all(commits: &Vec<Commit>) -> (all: Vec<CommitSummary>)
    ensures
        all@.len() == commits@.len(),
        forall|i: int|
            0 <= i < all@.len() ==> {
                let s = #[trigger] all@[i];
                let c = commits@[i]@;
                &&& s.id@ == ascii_chars(hex_encode(c.id))
                &&& s.author@ == author_text(c.author.name, c.author.email)
                &&& s.message@ == lossy_text(c.title())
                &&& s.date == c.time()
            },
{
    let mut all: Vec<CommitSummary> = Vec::new();
    let mut i: usize = 0;
    while i < commits.len()
        invariant
            i <= commits@.len(),
            all@.len() == i,
            forall|k: int|
                0 <= k < i ==> {
                    let s = #[trigger] all@[k];
                    let c = commits@[k]@;
                    &&& s.id@ == ascii_chars(hex_encode(c.id))
                    &&& s.author@ == author_text(c.author.name, c.author.email)
                    &&& s.message@ == lossy_text(c.title())
                    &&& s.date == c.time()
                },
        decreases commits@.len() - i,
    {
        all.push(summarize(&commits[i]));
        i += 1;
    }
    all
}

/// What is shown of `c` on its own page.
pub fn commit_fragment(c: &Commit) -> (text: String)
    ensures
        text@ == fragment_text(c@),
{
    let mut text = to_text(c.author().name());
    text.append(" &lt;");
    let email = to_text(c.author().email());
    text.append(email.as_str());
    text.append("&gt;<br/>");
    let title = to_text(c.title());
    text.append(title.as_str());
    text
}

} // verus!
