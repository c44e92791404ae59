//! Small helpers on byte strings that the decoders share.

use vstd::prelude::*;

verus! {

/// Line feed.
pub const NL: u8 = 0x0a;

/// Space.
pub const SP: u8 = 0x20;

/// The index of the first `b` in `s` at or after `from`, or the length of
/// `s` where there is none.
#[verifier::opaque]
pub open spec fn find_from(s: Seq<u8>, from: int, b: u8) -> int
    decreases s.len() - from,
{
    if from < 0 || from >= s.len() {
        s.len() as int
    } else if s[from] == b {
        from
    } else {
        find_from(s, from + 1, b)
    }
}

/// Whether `b` occurs nowhere in `s`.
pub open spec fn lacks(s: Seq<u8>, b: u8) -> bool {
    forall|i: int| 0 <= i < s.len() ==> #[trigger] s[i] != b
}

/// What `find_from` finds: the place of a `b` with no `b` before it.
pub proof fn lemma_find_from(s: Seq<u8>, from: int, b: u8)
    requires
        0 <= from <= s.len(),
    ensures
        from <= find_from(s, from, b) <= s.len(),
        find_from(s, from, b) < s.len() ==> s[find_from(s, from, b)] == b,
        forall|j: int| from <= j < find_from(s, from, b) ==> #[trigger] s[j] != b,
    decreases s.len() - from,
{
    reveal(find_from);
    if from < s.len() && s[from] != b {
        lemma_find_from(s, from + 1, b);
    }
}

/// A `b` at `at` with none between `from` and `at` is the one `find_from`
/// finds; with `at` the length of `s`, there is none to find.
pub proof fn lemma_find_from_is(s: Seq<u8>, from: int, b: u8, at: int)
    requires
        0 <= from <= at <= s.len(),
        at < s.len() ==> s[at] == b,
        forall|j: int| from <= j < at ==> #[trigger] s[j] != b,
    ensures
        find_from(s, from, b) == at,
    decreases at - from,
{
    reveal(find_from);
    if from < at {
        lemma_find_from_is(s, from + 1, b, at);
    }
}

/// The place after the last `b` among the first `n` bytes of `s`, or zero
/// where there is none.
pub open spec fn after_last(s: Seq<u8>, n: int, b: u8) -> int
    decreases n,
{
    if n <= 0 {
        0
    } else if s[n - 1] == b {
        n
    } else {
        after_last(s, n - 1, b)
    }
}

/// What `after_last` finds: a place with a `b` before it and none after.
pub proof fn lemma_after_last(s: Seq<u8>, n: int, b: u8)
    requires
        0 <= n <= s.len(),
    ensures
        0 <= after_last(s, n, b) <= n,
        after_last(s, n, b) > 0 ==> s[after_last(s, n, b) - 1] == b,
        forall|j: int| after_last(s, n, b) <= j < n ==> #[trigger] s[j] != b,
    decreases n,
{
    if n > 0 && s[n - 1] != b {
        lemma_after_last(s, n - 1, b);
    }
}

/// Finds the place after the last `b` among the first `n` bytes of `s`.
pub(crate) fn find_after_last(s: &[u8], n: usize, b: u8) -> (at: usize)
    requires
        n <= s@.len(),
    ensures
        at == after_last(s@, n as int, b),
        at <= n,
{
    let mut at: usize = n;
    while at > 0 && s[at - 1] != b
        invariant
            at <= n <= s@.len(),
            after_last(s@, n as int, b) == after_last(s@, at as int, b),
        decreases at,
    {
        at -= 1;
    }
    at
}

/// Finds the first `b` in `s` at or after `from`.
pub(crate) fn find_byte(s: &[u8], from: usize, b: u8) -> (at: usize)
    requires
        from <= s@.len(),
    ensures
        at == find_from(s@, from as int, b),
        from <= at <= s@.len(),
{
    let mut i: usize = from;
    while i < s.len() && s[i] != b
        invariant
            from <= i <= s@.len(),
            forall|j: int| from <= j < i ==> #[trigger] s@[j] != b,
        decreases s@.len() - i,
    {
        i += 1;
    }
    proof {
        lemma_find_from_is(s@, from as int, b, i as int);
    }
    i
}

/// Whether two byte slices hold the same bytes.
pub fn bytes_equal_to(a: &[u8], b: &[u8]) -> (r: bool)
    ensures
        r == (a@ == b@),
{
    if a.len() != b.len() {
        return false;
    }
    let mut i: usize = 0;
    while i < a.len()
        invariant
            a@.len() == b@.len(),
            i <= a.len(),
            forall|j: int| 0 <= j < i ==> a@[j] == b@[j],
        decreases a.len() - i,
    {
        if a[i] != b[i] {
            return false;
        }
        i += 1;
    }
    assert(a@ =~= b@);
    true
}

/// Copies `s[from..to]` into a vector of its own.
pub(crate) fn copy_range(s: &[u8], from: usize, to: usize) -> (out: Vec<u8>)
    requires
        from <= to <= s@.len(),
    ensures
        out@ == s@.subrange(from as int, to as int),
{
    let mut out: Vec<u8> = Vec::new();
    let mut i: usize = from;
    while i < to
        invariant
            from <= i <= to <= s@.len(),
            out@ == s@.subrange(from as int, i as int),
        decreases to - i,
    {
        out.push(s[i]);
        i += 1;
    }
    out
}

/// Appends all of `tail` to `out`.
pub(crate) fn append_bytes(out: &mut Vec<u8>, tail: &[u8])
    ensures
        final(out)@ == old(out)@ + tail@,
{
    let mut i: usize = 0;
    while i < tail.len()
        invariant
            i <= tail@.len(),
            out@ == old(out)@ + tail@.take(i as int),
        decreases tail@.len() - i,
    {
        out.push(tail[i]);
        i += 1;
    }
}

/// The files of a store: contents by name.
pub type Files = Map<Seq<u8>, Seq<u8>>;

/// The contents of the file `name`, if there is one.
pub open spec fn file_of(files: Files, name: Seq<u8>) -> Option<Seq<u8>> {
    if files.dom().contains(name) {
        Some(files[name])
    } else {
        None
    }
}

/// The bytes of a file that may be missing.
pub open spec fn file_view(file: Option<&[u8]>) -> Option<Seq<u8>> {
    match file {
        Some(bytes) => Some(bytes@),
        None => None,
    }
}

/// Whether `s` holds `pattern` at `at`.
pub open spec fn has_at(s: Seq<u8>, at: int, pattern: Seq<u8>) -> bool {
    0 <= at && at + pattern.len() <= s.len() && s.subrange(at, at + pattern.len()) == pattern
}

/// Two patterns one after the other are their join, and the other way
/// round.
pub proof fn lemma_has_at_join(s: Seq<u8>, at: int, x: Seq<u8>, y: Seq<u8>)
    ensures
        has_at(s, at, x + y) <==> has_at(s, at, x) && has_at(s, at + x.len(), y),
{
    if has_at(s, at, x + y) {
        let xy = s.subrange(at, at + x.len() + y.len());
        assert(s.subrange(at, at + x.len()) =~= xy.subrange(0, x.len() as int));
        assert(xy.subrange(0, x.len() as int) =~= x);
        assert(s.subrange(at + x.len(), at + x.len() + y.len()) =~= xy.subrange(
            x.len() as int,
            (x.len() + y.len()) as int,
        ));
        assert(xy.subrange(x.len() as int, (x.len() + y.len()) as int) =~= y);
    }
    if has_at(s, at, x) && has_at(s, at + x.len(), y) {
        assert(s.subrange(at, at + x.len() + y.len()) =~= s.subrange(at, at + x.len())
            + s.subrange(at + x.len(), at + x.len() + y.len()));
    }
}

/// A pattern at the start that is as long as the string is the string.
pub proof fn lemma_has_at_whole(s: Seq<u8>, t: Seq<u8>)
    requires
        has_at(s, 0, t),
        t.len() == s.len(),
    ensures
        s == t,
{
}

/// Tests whether `s` holds `pattern` at `at`.
pub(crate) fn starts_at(s: &[u8], at: usize, pattern: &[u8]) -> (r: bool)
    requires
        at <= s@.len(),
    ensures
        r == has_at(s@, at as int, pattern@),
{
    if pattern.len() > s.len() - at {
        return false;
    }
    let mut i: usize = 0;
    while i < pattern.len()
        invariant
            at + pattern@.len() <= s@.len() <= usize::MAX,
            i <= pattern@.len(),
            forall|j: int| 0 <= j < i ==> s@[at + j] == pattern@[j],
        decreases pattern@.len() - i,
    {
        if s[at + i] != pattern[i] {
            return false;
        }
        i += 1;
    }
    assert(s@.subrange(at as int, at + pattern@.len()) =~= pattern@);
    true
}

} // verus!
