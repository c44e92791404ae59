//! Packs: many objects in one file, each inflated on its own, some of them
//! stored as a delta against another object of the pack.

use crate::commit::{commit_of, result_view, Commit, CommitView};
use crate::delta::{apply_delta, delta_result, number_at, read_number, span, without};
use crate::error::Error;
use crate::loose::ObjectKind;
use crate::object_id::ObjectId;
use crate::pack_index::{be32, offset_of, IndexEntryView, PackIndex};
use crate::zlib::{inflate, zlib_inflated};
use vstd::prelude::*;

verus! {

/// How many deltas may lie between an object and the object that it is
/// made of in the end.
pub const MAX_DELTA_DEPTH: usize = 50;

/// The bytes of a pack before its first object.
pub const PACK_HEADER: usize = 12;

/// The start of an object in a pack, as plain values.
pub struct EntryHeadView {
    /// What is stored: 1 to 4 for the four kinds of object, 6 for a delta
    /// against an object some bytes before, 7 for a delta against an object
    /// named by its id.
    pub code: int,
    /// How many bytes the object, or the delta, has once it is inflated.
    pub size: nat,
    /// Where the bytes after the head start.
    pub next: int,
}

/// The three bits of the code in the first byte of a head.
pub open spec fn code_of(first: u8) -> int {
    let low7 = without(first as int, 128);
    let low6 = without(low7, 64);
    let low5 = without(low6, 32);
    (if low7 >= 64 {
        4int
    } else {
        0int
    }) + (if low6 >= 32 {
        2int
    } else {
        0int
    }) + (if low5 >= 16 {
        1int
    } else {
        0int
    })
}

/// The four lowest bits of the first byte of a head: the start of the size.
pub open spec fn low_size_of(first: u8) -> int {
    without(without(without(without(first as int, 128), 64), 32), 16)
}

/// The head of the object that starts at `at`: a byte with the code and the
/// four lowest bits of the size, and, where its top bit is set, the rest of
/// the size in bytes of seven bits each.
pub open spec fn entry_head_at(raw: Seq<u8>, at: int) -> Option<EntryHeadView> {
    if at < 0 || at >= raw.len() {
        None
    } else if raw[at] < 128 {
        Some(
            EntryHeadView { code: code_of(raw[at]), size: low_size_of(raw[at]) as nat, next: at + 1 },
        )
    } else {
        match number_at(raw, at + 1, 8) {
            Some((rest, next)) => Some(
                EntryHeadView {
                    code: code_of(raw[at]),
                    size: (low_size_of(raw[at]) + 16 * rest) as nat,
                    next,
                },
            ),
            None => None,
        }
    }
}

/// The kind of object that a code stands for, where it stands for one.
pub open spec fn kind_of_code(code: int) -> Option<ObjectKind> {
    if code == 1 {
        Some(ObjectKind::Commit)
    } else if code == 2 {
        Some(ObjectKind::Tree)
    } else if code == 3 {
        Some(ObjectKind::Blob)
    } else if code == 4 {
        Some(ObjectKind::Tag)
    } else {
        None
    }
}

/// The rest of a distance whose bytes so far stand for `acc`: each further
/// byte takes the number so far, one more, 128 times, and adds its seven
/// low bits; the byte without the top bit is the last.
pub open spec fn distance_more(raw: Seq<u8>, at: int, acc: nat, groups: nat) -> Option<(nat, int)>
    decreases groups,
{
    if groups == 0 || at < 0 || at >= raw.len() {
        None
    } else {
        let value = ((acc + 1) * 128 + without(raw[at] as int, 128)) as nat;
        if raw[at] < 128 {
            Some((value, at + 1))
        } else {
            distance_more(raw, at + 1, value, (groups - 1) as nat)
        }
    }
}

/// The distance that starts at `at`: how many bytes before a delta its base
/// starts.
pub open spec fn distance_at(raw: Seq<u8>, at: int) -> Option<(nat, int)> {
    if at < 0 || at >= raw.len() {
        None
    } else if raw[at] < 128 {
        Some((raw[at] as nat, at + 1))
    } else {
        distance_more(raw, at + 1, (raw[at] - 128) as nat, 7)
    }
}

/// What the zlib stream that starts at `at` holds, where that is `size`
/// bytes.
pub open spec fn inflated_at(pack: Seq<u8>, at: int, size: nat) -> Option<Seq<u8>> {
    if 0 <= at <= pack.len() && size <= usize::MAX {
        match zlib_inflated(pack.skip(at), size as usize) {
            Some(out) => if out.len() == size {
                Some(out)
            } else {
                None
            },
            None => None,
        }
    } else {
        None
    }
}

/// Where the base of the delta at `at` starts, and where the delta's own
/// bytes start: for code 6 the base lies a distance before the delta, for
/// code 7 it is the object that the index lists under the id that follows
/// the head.
pub open spec fn base_of(
    pack: Seq<u8>,
    index: Seq<IndexEntryView>,
    at: int,
    head: EntryHeadView,
) -> Option<(int, int)> {
    if head.code == 6 {
        match distance_at(pack, head.next) {
            Some((distance, data_at)) => if 0 < distance <= at {
                Some((at - distance, data_at))
            } else {
                None
            },
            None => None,
        }
    } else if head.code == 7 {
        if 0 <= head.next && head.next + 20 <= pack.len() {
            match offset_of(index, pack.subrange(head.next, head.next + 20)) {
                Some(offset) => Some((offset as int, head.next + 20)),
                None => None,
            }
        } else {
            None
        }
    } else {
        None
    }
}

/// The object that starts at `at`, if one does: for the four kinds what the
/// stream after the head inflates to, and for a delta what it makes out of
/// its base, which is found in the same way through at most `depth` more
/// deltas. Nothing of more than `limit` bytes is made.
pub open spec fn packed_at(
    pack: Seq<u8>,
    index: Seq<IndexEntryView>,
    at: int,
    depth: nat,
    limit: usize,
) -> Option<(ObjectKind, Seq<u8>)>
    decreases depth,
{
    match entry_head_at(pack, at) {
        None => None,
        Some(head) => if head.size > limit {
            None
        } else {
            match kind_of_code(head.code) {
                Some(kind) => match inflated_at(pack, head.next, head.size) {
                    Some(body) => Some((kind, body)),
                    None => None,
                },
                None => if depth == 0 {
                    None
                } else {
                    match base_of(pack, index, at, head) {
                        None => None,
                        Some((base_at, data_at)) => match packed_at(
                            pack,
                            index,
                            base_at,
                            (depth - 1) as nat,
                            limit,
                        ) {
                            None => None,
                            Some((kind, base)) => match inflated_at(pack, data_at, head.size) {
                                None => None,
                                Some(delta) => match delta_result(base, delta) {
                                    Some(out) => if out.len() <= limit {
                                        Some((kind, out))
                                    } else {
                                        None
                                    },
                                    None => None,
                                },
                            },
                        },
                    }
                },
            }
        },
    }
}

/// Whether `data` starts as a pack of `count` objects does: `PACK`, the
/// version 2 or 3, the count.
pub open spec fn has_pack_header(data: Seq<u8>, count: nat) -> bool {
    &&& data.len() >= PACK_HEADER
    &&& data[0] == 0x50
    &&& data[1] == 0x41
    &&& data[2] == 0x43
    &&& data[3] == 0x4b
    &&& data[4] == 0
    &&& data[5] == 0
    &&& data[6] == 0
    &&& (data[7] == 2 || data[7] == 3)
    &&& be32(data, 8) == count
}

/// What asking a pack for the object `id` comes to: `ObjectNotFound` where
/// the index does not list it, `CorruptObject` where no object can be made
/// of what lies at its offset.
pub open spec fn packed_object(
    pack: Seq<u8>,
    index: Seq<IndexEntryView>,
    id: Seq<u8>,
    limit: usize,
) -> Result<(ObjectKind, Seq<u8>), Error> {
    match offset_of(index, id) {
        None => Err(Error::ObjectNotFound),
        Some(offset) => match packed_at(pack, index, offset as int, MAX_DELTA_DEPTH as nat, limit) {
            Some(found) => Ok(found),
            None => Err(Error::CorruptObject),
        },
    }
}

/// What asking a pack for the commit `id` comes to.
pub open spec fn packed_commit(
    pack: Seq<u8>,
    index: Seq<IndexEntryView>,
    id: Seq<u8>,
    limit: usize,
) -> Result<CommitView, Error> {
    match packed_object(pack, index, id, limit) {
        Ok((ObjectKind::Commit, body)) => match commit_of(id, body) {
            Some(c) => Ok(c),
            None => Err(Error::CorruptObject),
        },
        Ok(_) => Err(Error::CorruptObject),
        Err(e) => Err(e),
    }
}

/// One more than the largest distance of `k` bytes.
pub open spec fn reach(k: nat) -> nat
    decreases k,
{
    if k <= 1 {
        128
    } else {
        (reach((k - 1) as nat) + 1) * 128
    }
}

proof fn lemma_reach(k: nat)
    requires
        k <= 8,
    ensures
        0 < reach(k) <= 0x200_0000_0000_0000,
{
    reveal_with_fuel(reach, 9);
}

fn strip(x: u8, weight: u8) -> (r: u8)
    ensures
        r == without(x as int, weight as int),
{
    if x >= weight {
        x - weight
    } else {
        x
    }
}

/// The start of an object in a pack, read.
struct EntryHead {
    code: u8,
    size: u64,
    next: usize,
}

fn read_head(raw: &[u8], at: usize) -> (r: Option<EntryHead>)
    ensures
        match r {
            Some(head) => entry_head_at(raw@, at as int) == Some(
                EntryHeadView { code: head.code as int, size: head.size as nat, next: head.next as int },
            ) && at < head.next <= raw@.len() && head.code < 8,
            None => entry_head_at(raw@, at as int) is None,
        },
{
    if at >= raw.len() {
        return None;
    }
    let first: u8 = raw[at];
    let low7: u8 = strip(first, 128);
    let low6: u8 = strip(low7, 64);
    let low5: u8 = strip(low6, 32);
    let low4: u8 = strip(low5, 16);
    let mut code: u8 = 0;
    if low7 >= 64 {
        code += 4;
    }
    if low6 >= 32 {
        code += 2;
    }
    if low5 >= 16 {
        code += 1;
    }
    if first < 128 {
        return Some(EntryHead { code, size: low4 as u64, next: at + 1 });
    }
    match read_number(raw, at + 1, 8) {
        Some((rest, next)) => {
            proof {
                assert(span(8) == 0x100_0000_0000_0000) by {
                    reveal_with_fuel(span, 9);
                }
            }
            Some(EntryHead { code, size: low4 as u64 + 16 * rest, next })
        },
        None => None,
    }
}

fn read_distance_more(raw: &[u8], at: usize, acc: u64, groups: usize) -> (r: Option<(u64, usize)>)
    requires
        groups <= 7,
        acc < reach((8 - groups) as nat),
    ensures
        match r {
            Some((distance, next)) => distance_more(raw@, at as int, acc as nat, groups as nat)
                == Some((distance as nat, next as int)) && at < next <= raw@.len(),
            None => distance_more(raw@, at as int, acc as nat, groups as nat) is None,
        },
    decreases groups,
{
    if groups == 0 || at >= raw.len() {
        return None;
    }
    proof {
        lemma_reach((8 - groups) as nat);
        lemma_reach((9 - groups) as nat);
        assert(reach((9 - groups) as nat) == (reach((8 - groups) as nat) + 1) * 128) by {
            reveal_with_fuel(reach, 2);
        }
    }
    let b: u8 = raw[at];
    let value: u64 = (acc + 1) * 128 + strip(b, 128) as u64;
    if b < 128 {
        Some((value, at + 1))
    } else {
        read_distance_more(raw, at + 1, value, groups - 1)
    }
}

fn read_distance(raw: &[u8], at: usize) -> (r: Option<(u64, usize)>)
    ensures
        match r {
            Some((distance, next)) => distance_at(raw@, at as int) == Some(
                (distance as nat, next as int),
            ) && at < next <= raw@.len(),
            None => distance_at(raw@, at as int) is None,
        },
{
    if at >= raw.len() {
        return None;
    }
    let b: u8 = raw[at];
    if b < 128 {
        return Some((b as u64, at + 1));
    }
    proof {
        assert(reach(1) == 128) by {
            reveal_with_fuel(reach, 2);
        }
    }
    read_distance_more(raw, at + 1, (b - 128) as u64, 7)
}

fn inflate_at(pack: &[u8], at: usize, size: u64) -> (r: Option<Vec<u8>>)
    requires
        at <= pack@.len(),
    ensures
        match r {
            Some(out) => inflated_at(pack@, at as int, size as nat) == Some(out@),
            None => inflated_at(pack@, at as int, size as nat) is None,
        },
{
    if size > usize::MAX as u64 {
        return None;
    }
    let stream = vstd::slice::slice_subrange(pack, at, pack.len());
    match inflate(stream, size as usize) {
        Some(out) => {
            if out.len() as u64 == size {
                Some(out)
            } else {
                None
            }
        },
        None => None,
    }
}

fn kind_from_code(code: u8) -> (r: Option<ObjectKind>)
    ensures
        r == kind_of_code(code as int),
{
    if code == 1 {
        Some(ObjectKind::Commit)
    } else if code == 2 {
        Some(ObjectKind::Tree)
    } else if code == 3 {
        Some(ObjectKind::Blob)
    } else if code == 4 {
        Some(ObjectKind::Tag)
    } else {
        None
    }
}

fn find_base(pack: &[u8], index: &PackIndex, at: usize, head: &EntryHead) -> (r: Option<
    (usize, usize),
>)
    requires
        at < head.next <= pack@.len(),
    ensures
        match r {
            Some((base_at, data_at)) => base_of(
                pack@,
                index@,
                at as int,
                EntryHeadView { code: head.code as int, size: head.size as nat, next: head.next as int },
            ) == Some((base_at as int, data_at as int)) && data_at <= pack@.len(),
            None => match base_of(
                pack@,
                index@,
                at as int,
                EntryHeadView { code: head.code as int, size: head.size as nat, next: head.next as int },
            ) {
                Some((base_at, data_at)) => base_at >= pack@.len(),
                None => true,
            },
        },
{
    let len: usize = pack.len();
    if head.code == 6 {
        match read_distance(pack, head.next) {
            Some((distance, data_at)) => {
                if 0 < distance && distance <= at as u64 {
                    Some((at - distance as usize, data_at))
                } else {
                    None
                }
            },
            None => None,
        }
    } else if head.code == 7 {
        if len - head.next < 20 {
            return None;
        }
        let id = match ObjectId::from_bytes(
            vstd::slice::slice_subrange(pack, head.next, head.next + 20),
        ) {
            Some(id) => id,
            None => {
                return None;
            },
        };
        match index.lookup(&id) {
            Some(offset) => {
                if offset >= len as u64 {
                    None
                } else {
                    Some((offset as usize, head.next + 20))
                }
            },
            None => None,
        }
    } else {
        None
    }
}

/// Reads the object that starts at `at` in a pack.
pub fn read_packed(pack: &[u8], index: &PackIndex, at: usize, depth: usize, limit: usize) -> (r:
    Option<(ObjectKind, Vec<u8>)>)
    ensures
        match r {
            Some((kind, body)) => packed_at(pack@, index@, at as int, depth as nat, limit) == Some(
                (kind, body@),
            ) && body@.len() <= limit,
            None => packed_at(pack@, index@, at as int, depth as nat, limit) is None,
        },
    decreases depth,
{
    let head = match read_head(pack, at) {
        Some(head) => head,
        None => {
            return None;
        },
    };
    if head.size > limit as u64 {
        return None;
    }
    match kind_from_code(head.code) {
        Some(kind) => {
            return match inflate_at(pack, head.next, head.size) {
                Some(body) => Some((kind, body)),
                None => None,
            };
        },
        None => {},
    }
    if depth == 0 {
        return None;
    }
    let ghost view = EntryHeadView {
        code: head.code as int,
        size: head.size as nat,
        next: head.next as int,
    };
    let (base_at, data_at) = match find_base(pack, index, at, &head) {
        Some(found) => found,
        None => {
            proof {
                if base_of(pack@, index@, at as int, view) is Some {
                    let (far, _) = base_of(pack@, index@, at as int, view)->0;
                    assert(packed_at(pack@, index@, far, (depth - 1) as nat, limit) is None);
                }
            }
            return None;
        },
    };
    let (kind, base) = match read_packed(pack, index, base_at, depth - 1, limit) {
        Some(found) => found,
        None => {
            return None;
        },
    };
    let delta = match inflate_at(pack, data_at, head.size) {
        Some(delta) => delta,
        None => {
            return None;
        },
    };
    match apply_delta(base.as_slice(), delta.as_slice(), limit) {
        Ok(out) => Some((kind, out)),
        Err(_) => None,
    }
}

/// A pack and its index.
#[derive(Debug)]
pub struct Pack {
    index: PackIndex,
    data: Vec<u8>,
}

impl Pack {
    /// The objects that the pack's index lists.
    pub closed spec fn index(&self) -> Seq<IndexEntryView> {
        self.index@
    }

    /// The bytes of the pack.
    pub closed spec fn data(&self) -> Seq<u8> {
        self.data@
    }

    /// Puts a pack and its index together. A pack without the header of a
    /// pack, and one that does not hold as many objects as the index lists,
    /// is corrupt.
    pub fn new(index: PackIndex, data: Vec<u8>) -> (r: Result<Pack, Error>)
        ensures
            match r {
                Ok(pack) => pack.index() == index@ && pack.data() == data@ && has_pack_header(
                    data@,
                    index@.len(),
                ),
                Err(e) => e == Error::CorruptObject && !has_pack_header(data@, index@.len()),
            },
    {
        if data.len() < PACK_HEADER {
            return Err(Error::CorruptObject);
        }
        if data[0] != 0x50 || data[1] != 0x41 || data[2] != 0x43 || data[3] != 0x4b || data[4] != 0
            || data[5] != 0 || data[6] != 0 || (data[7] != 2 && data[7] != 3) {
            return Err(Error::CorruptObject);
        }
        let count: u64 = (data[8] as u64) * 0x100_0000 + (data[9] as u64) * 0x1_0000 + (
        data[10] as u64) * 0x100 + (data[11] as u64);
        if count != index.len() as u64 {
            return Err(Error::CorruptObject);
        }
        Ok(Pack { index, data })
    }

    /// Whether the pack's index lists the object `id`.
    pub fn contains(&self, id: &ObjectId) -> (r: bool)
        ensures
            r == offset_of(self.index(), id@) is Some,
    {
        self.index.lookup(id).is_some()
    }

    /// Reads the object `id` out of the pack.
    pub fn read(&self, id: &ObjectId, limit: usize) -> (r: Result<(ObjectKind, Vec<u8>), Error>)
        ensures
            match r {
                Ok((kind, body)) => packed_object(self.data(), self.index(), id@, limit) == Ok::<
                    (ObjectKind, Seq<u8>),
                    Error,
                >((kind, body@)),
                Err(e) => packed_object(self.data(), self.index(), id@, limit) == Err::<
                    (ObjectKind, Seq<u8>),
                    Error,
                >(e),
            },
    {
        let offset = match self.index.lookup(id) {
            Some(offset) => offset,
            None => {
                return Err(Error::ObjectNotFound);
            },
        };
        if offset >= self.data.len() as u64 {
            return Err(Error::CorruptObject);
        }
        match read_packed(
            self.data.as_slice(),
            &self.index,
            offset as usize,
            MAX_DELTA_DEPTH,
            limit,
        ) {
            Some(found) => Ok(found),
            None => Err(Error::CorruptObject),
        }
    }

    /// Reads the commit `id` out of the pack.
    pub fn read_commit(&self, id: ObjectId, limit: usize) -> (r: Result<Commit, Error>)
        ensures
            result_view(r) == packed_commit(self.data(), self.index(), id@, limit),
            r matches Ok(c) ==> c@.wf() && c@.id == id@,
    {
        match self.read(&id, limit) {
            Ok((ObjectKind::Commit, body)) => Commit::parse(id, body.as_slice()),
            Ok(_) => Err(Error::CorruptObject),
            Err(e) => Err(e),
        }
    }
}

} // verus!
