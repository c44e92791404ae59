//! Packed references: one file that lists references which have no file
//! of their own, one to a line, as an id in hex, a space and the name.

use crate::bytes::{bytes_equal_to, copy_range, file_view, find_byte, find_from, NL, SP};
use crate::object_id::{is_hex_id, ObjectId};
use vstd::prelude::*;

verus! {

/// The id in hex that the line from `at` to `end` gives to `name`, if it
/// is such a line: 40 or 64 hex digits, a space, and the name.
pub open spec fn entry_for(raw: Seq<u8>, at: int, end: int, name: Seq<u8>) -> Option<Seq<u8>> {
    let line = raw.subrange(at, end);
    let sp = find_from(line, 0, SP);
    if sp < line.len() && is_hex_id(line.take(sp)) && line.skip(sp + 1) == name {
        Some(line.take(sp))
    } else {
        None
    }
}

/// The id in hex that the first line from `at` on which lists `name`
/// gives to it. The last line may lack its line feed.
pub open spec fn packed_ref_from(raw: Seq<u8>, at: int, name: Seq<u8>) -> Option<Seq<u8>>
    decreases raw.len() - at,
{
    if at < 0 || at >= raw.len() {
        None
    } else {
        let end = find_from(raw, at, NL);
        match entry_for(raw, at, end, name) {
            Some(hex) => Some(hex),
            None => if at <= end < raw.len() {
                packed_ref_from(raw, end + 1, name)
            } else {
                None
            },
        }
    }
}

/// The id in hex that a file of packed references gives to `name`.
pub open spec fn packed_ref(raw: Seq<u8>, name: Seq<u8>) -> Option<Seq<u8>> {
    packed_ref_from(raw, 0, name)
}

/// The contents under which a reference is read: those of its own file
/// where it has one, and else the id that the packed references give it.
pub open spec fn ref_contents_of(
    loose: Option<Seq<u8>>,
    packed: Option<Seq<u8>>,
    name: Seq<u8>,
) -> Option<Seq<u8>> {
    match loose {
        Some(contents) => Some(contents),
        None => match packed {
            Some(raw) => packed_ref(raw, name),
            None => None,
        },
    }
}

fn entry(raw: &[u8], at: usize, end: usize, name: &[u8]) -> (r: Option<Vec<u8>>)
    requires
        at <= end <= raw@.len(),
    ensures
        match r {
            Some(hex) => entry_for(raw@, at as int, end as int, name@) == Some(hex@),
            None => entry_for(raw@, at as int, end as int, name@) is None,
        },
{
    let line = vstd::slice::slice_subrange(raw, at, end);
    let sp: usize = find_byte(line, 0, SP);
    if sp >= line.len() {
        return None;
    }
    let hex = vstd::slice::slice_subrange(line, 0, sp);
    if ObjectId::from_hex(hex).is_err() {
        return None;
    }
    let rest = vstd::slice::slice_subrange(line, sp + 1, line.len());
    if !bytes_equal_to(rest, name) {
        return None;
    }
    let out = copy_range(line, 0, sp);
    Some(out)
}

/// Looks `name` up in a file of packed references.
pub fn find_packed_ref(raw: &[u8], name: &[u8]) -> (r: Option<Vec<u8>>)
    ensures
        match r {
            Some(hex) => packed_ref(raw@, name@) == Some(hex@),
            None => packed_ref(raw@, name@) is None,
        },
{
    let n: usize = raw.len();
    let mut at: usize = 0;
    while at < n
        invariant
            n == raw@.len(),
            at <= n,
            packed_ref(raw@, name@) == packed_ref_from(raw@, at as int, name@),
        decreases n - at,
    {
        let end: usize = find_byte(raw, at, NL);
        match entry(raw, at, end, name) {
            Some(hex) => {
                return Some(hex);
            },
            None => {},
        }
        if end >= n {
            return None;
        }
        at = end + 1;
    }
    None
}

/// The contents under which the reference `name` is read, given its own
/// file and the file of packed references, each `None` where there is none.
pub fn ref_contents(loose: Option<&[u8]>, packed: Option<&[u8]>, name: &[u8]) -> (r: Option<
    Vec<u8>,
>)
    ensures
        match r {
            Some(contents) => ref_contents_of(file_view(loose), file_view(packed), name@) == Some(
                contents@,
            ),
            None => ref_contents_of(file_view(loose), file_view(packed), name@) is None,
        },
{
    match loose {
        Some(contents) => {
            let out = copy_range(contents, 0, contents.len());
            Some(out)
        },
        None => match packed {
            Some(raw) => find_packed_ref(raw, name),
            None => None,
        },
    }
}

} // verus!
