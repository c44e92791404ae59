//! Pack indexes: for each object of a pack its id and where in the pack it
//! starts, sorted by id.

use crate::error::Error;
use crate::object_id::{bytes_before, lemma_before_total, lemma_before_trans, ObjectId};
use vstd::prelude::*;

verus! {

/// The bytes before the table of ids: eight of header and 256 counts of
/// four bytes each.
pub const IDS_AT: usize = 1032;

/// The bytes after the tables: the checksums of the pack and of the index.
pub const TRAILER: usize = 40;

/// An object of a pack, as plain values.
pub struct IndexEntryView {
    /// The id of the object.
    pub id: Seq<u8>,
    /// Where in the pack the object starts.
    pub offset: nat,
}

/// The number that the four bytes at `at` stand for, the highest first.
pub open spec fn be32(raw: Seq<u8>, at: int) -> nat {
    (raw[at] * 0x100_0000 + raw[at + 1] * 0x1_0000 + raw[at + 2] * 0x100 + raw[at + 3]) as nat
}

/// The number that the eight bytes at `at` stand for, the highest first.
pub open spec fn be64(raw: Seq<u8>, at: int) -> nat {
    be32(raw, at) * 0x1_0000_0000 + be32(raw, at + 4)
}

/// Whether `raw` starts as an index of the second version does.
pub open spec fn has_index_header(raw: Seq<u8>) -> bool {
    &&& raw.len() >= IDS_AT + TRAILER
    &&& raw[0] == 0xff
    &&& raw[1] == 0x74
    &&& raw[2] == 0x4f
    &&& raw[3] == 0x63
    &&& raw[4] == 0
    &&& raw[5] == 0
    &&& raw[6] == 0
    &&& raw[7] == 2
}

/// How many objects the index names: the last of its 256 counts.
pub open spec fn index_count(raw: Seq<u8>) -> nat {
    be32(raw, 1028)
}

/// Where the table of large offsets starts in an index of `n` objects.
pub open spec fn large_at(n: nat) -> int {
    IDS_AT + 28 * n
}

/// Whether the tables of an index of `n` objects fit in `raw`, with a
/// table of large offsets of whole entries.
pub open spec fn tables_fit(raw: Seq<u8>, n: nat) -> bool {
    large_at(n) + TRAILER <= raw.len() && (raw.len() - TRAILER - large_at(n)) % 8 == 0
}

/// The id of object `i`.
pub open spec fn id_at(raw: Seq<u8>, i: int) -> Seq<u8> {
    raw.subrange(IDS_AT + 20 * i, IDS_AT + 20 * i + 20)
}

/// The offset of object `i` in an index of `n` objects: the number in the
/// table of offsets, or, where its top bit is set, the entry of the table
/// of large offsets that the rest of it names. `None` where it names an
/// entry that the table does not have.
pub open spec fn offset_at(raw: Seq<u8>, n: nat, i: int) -> Option<nat> {
    let small = be32(raw, IDS_AT + 24 * n + 4 * i);
    if small < 0x8000_0000 {
        Some(small)
    } else {
        let at = large_at(n) + 8 * (small - 0x8000_0000);
        if at + 8 + TRAILER <= raw.len() {
            Some(be64(raw, at))
        } else {
            None
        }
    }
}

/// Whether the ids come in ascending order, none twice.
pub open spec fn ascending(entries: Seq<IndexEntryView>) -> bool {
    forall|i: int, j: int|
        0 <= i < j < entries.len() ==> bytes_before(
            (#[trigger] entries[i]).id,
            (#[trigger] entries[j]).id,
        )
}

/// Whether `entries` are the first `k` objects of the index `raw`.
pub open spec fn are_entries(raw: Seq<u8>, entries: Seq<IndexEntryView>, k: int) -> bool {
    &&& entries.len() == k
    &&& forall|i: int|
        0 <= i < k ==> (#[trigger] entries[i]).id == id_at(raw, i) && offset_at(
            raw,
            index_count(raw),
            i,
        ) == Some(entries[i].offset)
}

/// Whether `entries` are what the index `raw` holds: `raw` has the header
/// of an index, its tables fit, each offset is there, and the ids ascend.
pub open spec fn is_index(raw: Seq<u8>, entries: Seq<IndexEntryView>) -> bool {
    &&& has_index_header(raw)
    &&& tables_fit(raw, index_count(raw))
    &&& are_entries(raw, entries, index_count(raw) as int)
    &&& ascending(entries)
}

/// Whether `raw` is an index at all.
pub open spec fn is_some_index(raw: Seq<u8>) -> bool {
    exists|entries: Seq<IndexEntryView>| is_index(raw, entries)
}

/// Where the object `id` starts, if `entries` name it.
pub open spec fn offset_of(entries: Seq<IndexEntryView>, id: Seq<u8>) -> Option<nat> {
    if exists|i: int| 0 <= i < entries.len() && (#[trigger] entries[i]).id == id {
        Some(entries[choose|i: int| 0 <= i < entries.len() && (#[trigger] entries[i]).id == id].offset)
    } else {
        None
    }
}

/// In ascending entries an id stands at one place at most.
pub proof fn lemma_offset_of(entries: Seq<IndexEntryView>, i: int)
    requires
        ascending(entries),
        0 <= i < entries.len(),
    ensures
        offset_of(entries, entries[i].id) == Some(entries[i].offset),
{
    let j = choose|j: int| 0 <= j < entries.len() && (#[trigger] entries[j]).id == entries[i].id;
    lemma_before_total(entries[i].id, entries[j].id);
}

/// An index holds one run of entries and no other.
pub proof fn lemma_index_is_unique(raw: Seq<u8>, a: Seq<IndexEntryView>, b: Seq<IndexEntryView>)
    requires
        is_index(raw, a),
        is_index(raw, b),
    ensures
        a == b,
{
    assert forall|i: int| 0 <= i < a.len() implies a[i] == b[i] by {
        assert(a[i].id == id_at(raw, i) && b[i].id == id_at(raw, i));
    }
}

/// The objects of a pack: their ids and where they start.
#[derive(Debug)]
pub struct PackIndex {
    ids: Vec<ObjectId>,
    offsets: Vec<u64>,
}

impl View for PackIndex {
    type V = Seq<IndexEntryView>;

    closed spec fn view(&self) -> Seq<IndexEntryView> {
        Seq::new(
            self.ids@.len(),
            |i: int| IndexEntryView { id: self.ids@[i]@, offset: self.offsets@[i] as nat },
        )
    }
}

fn read_be32(raw: &[u8], at: usize) -> (r: u64)
    requires
        at + 4 <= raw@.len(),
    ensures
        r == be32(raw@, at as int),
        r < 0x1_0000_0000,
        raw@.len() <= usize::MAX,
{
    (raw[at] as u64) * 0x100_0000 + (raw[at + 1] as u64) * 0x1_0000 + (raw[at + 2] as u64) * 0x100
        + (raw[at + 3] as u64)
}

fn read_be64(raw: &[u8], at: usize) -> (r: u64)
    requires
        at + 8 <= raw@.len(),
    ensures
        r == be64(raw@, at as int),
{
    let high: u64 = read_be32(raw, at);
    high * 0x1_0000_0000 + read_be32(raw, at + 4)
}

impl PackIndex {
    /// Every index has as many offsets as ids, and its ids ascend.
    #[verifier::type_invariant]
    spec fn well_formed(self) -> bool {
        self.ids@.len() == self.offsets@.len() && ascending(self@)
    }

    /// Reads an index of the second version. Anything else, an index whose
    /// tables do not fit its length, and one whose ids do not ascend is
    /// corrupt.
    pub fn parse(raw: &[u8]) -> (r: Result<PackIndex, Error>)
        ensures
            match r {
                Ok(index) => is_index(raw@, index@),
                Err(e) => e == Error::CorruptObject && !is_some_index(raw@),
            },
    {
        let len: usize = raw.len();
        if len < IDS_AT + TRAILER {
            return Err(Error::CorruptObject);
        }
        if raw[0] != 0xff || raw[1] != 0x74 || raw[2] != 0x4f || raw[3] != 0x63 || raw[4] != 0
            || raw[5] != 0 || raw[6] != 0 || raw[7] != 2 {
            return Err(Error::CorruptObject);
        }
        let count: u64 = read_be32(raw, 8 + 255 * 4);
        let room: u64 = (len - IDS_AT - TRAILER) as u64;
        if count > room / 28 {
            return Err(Error::CorruptObject);
        }
        let n: usize = count as usize;
        let large: usize = IDS_AT + 28 * n;
        let tail: usize = len - TRAILER;
        if (tail - large) % 8 != 0 {
            return Err(Error::CorruptObject);
        }
        let mut ids: Vec<ObjectId> = Vec::new();
        let mut offsets: Vec<u64> = Vec::new();
        let mut i: usize = 0;
        while i < n
            invariant
                len == raw@.len(),
                has_index_header(raw@),
                n == index_count(raw@),
                large == large_at(n as nat),
                tail == len - TRAILER,
                large <= tail,
                i <= n,
                ids@.len() == i,
                offsets@.len() == i,
                are_entries(
                    raw@,
                    Seq::new(
                        i as nat,
                        |k: int| IndexEntryView { id: ids@[k]@, offset: offsets@[k] as nat },
                    ),
                    i as int,
                ),
                ascending(
                    Seq::new(
                        i as nat,
                        |k: int| IndexEntryView { id: ids@[k]@, offset: offsets@[k] as nat },
                    ),
                ),
            decreases n - i,
        {
            let ghost before = Seq::new(
                i as nat,
                |k: int| IndexEntryView { id: ids@[k]@, offset: offsets@[k] as nat },
            );
            let at: usize = IDS_AT + 20 * i;
            let id = match ObjectId::from_bytes(vstd::slice::slice_subrange(raw, at, at + 20)) {
                Some(id) => id,
                None => {
                    return Err(Error::CorruptObject);
                },
            };
            if i > 0 && !ids[i - 1].precedes(&id) {
                proof {
                    assert forall|entries: Seq<IndexEntryView>| !is_index(raw@, entries) by {
                        if is_index(raw@, entries) {
                            assert(bytes_before(entries[i - 1].id, entries[i as int].id));
                            assert(before[i - 1].id == id_at(raw@, i - 1));
                        }
                    }
                }
                return Err(Error::CorruptObject);
            }
            let small: u64 = read_be32(raw, IDS_AT + 24 * n + 4 * i);
            let offset: u64 = if small < 0x8000_0000 {
                small
            } else {
                let k: u64 = small - 0x8000_0000;
                if k >= ((tail - large) / 8) as u64 {
                    proof {
                        assert forall|entries: Seq<IndexEntryView>| !is_index(raw@, entries) by {
                            if is_index(raw@, entries) {
                                assert(offset_at(raw@, n as nat, i as int) == Some(
                                    entries[i as int].offset,
                                ));
                            }
                        }
                    }
                    return Err(Error::CorruptObject);
                }
                read_be64(raw, large + 8 * (k as usize))
            };
            proof {
                let after = Seq::new(
                    (i + 1) as nat,
                    |k: int|
                        IndexEntryView {
                            id: ids@.push(id)[k]@,
                            offset: offsets@.push(offset)[k] as nat,
                        },
                );
                assert forall|k: int| 0 <= k < i implies #[trigger] after[k] == before[k] by {}
                assert forall|a: int, b: int| 0 <= a < b < after.len() implies bytes_before(
                    (#[trigger] after[a]).id,
                    (#[trigger] after[b]).id,
                ) by {
                    if b < i {
                        assert(bytes_before(before[a].id, before[b].id));
                    } else if a < i - 1 {
                        assert(bytes_before(before[a].id, before[i - 1].id));
                        lemma_before_trans(after[a].id, before[i - 1].id, id@);
                    }
                }
            }
            ids.push(id);
            offsets.push(offset);
            i += 1;
        }
        let index = PackIndex { ids, offsets };
        Ok(index)
    }

    /// How many objects the index names.
    pub fn len(&self) -> (n: usize)
        ensures
            n == self@.len(),
    {
        self.ids.len()
    }

    /// Where in the pack the object `id` starts, if the index names it.
    pub fn lookup(&self, id: &ObjectId) -> (r: Option<u64>)
        ensures
            match r {
                Some(offset) => offset_of(self@, id@) == Some(offset as nat),
                None => offset_of(self@, id@) is None,
            },
    {
        proof {
            use_type_invariant(self);
        }
        let mut lo: usize = 0;
        let mut hi: usize = self.ids.len();
        while lo < hi
            invariant
                lo <= hi <= self.ids@.len(),
                self.ids@.len() == self.offsets@.len(),
                ascending(self@),
                forall|k: int| 0 <= k < lo ==> bytes_before((#[trigger] self@[k]).id, id@),
                forall|k: int| hi <= k < self@.len() ==> bytes_before(id@, (#[trigger] self@[k]).id),
            decreases hi - lo,
        {
            let mid: usize = lo + (hi - lo) / 2;
            if self.ids[mid].same(id) {
                proof {
                    lemma_offset_of(self@, mid as int);
                }
                return Some(self.offsets[mid]);
            }
            if self.ids[mid].precedes(id) {
                proof {
                    assert forall|k: int| 0 <= k < mid + 1 implies bytes_before(
                        (#[trigger] self@[k]).id,
                        id@,
                    ) by {
                        if k < mid {
                            assert(bytes_before(self@[k].id, self@[mid as int].id));
                            lemma_before_trans(self@[k].id, self@[mid as int].id, id@);
                        }
                    }
                }
                lo = mid + 1;
            } else {
                proof {
                    lemma_before_total(self@[mid as int].id, id@);
                    assert forall|k: int| mid <= k < self@.len() implies bytes_before(
                        id@,
                        (#[trigger] self@[k]).id,
                    ) by {
                        if k > mid {
                            assert(bytes_before(self@[mid as int].id, self@[k].id));
                            lemma_before_trans(id@, self@[mid as int].id, self@[k].id);
                        }
                    }
                }
                hi = mid;
            }
        }
        proof {
            assert forall|k: int| 0 <= k < self@.len() implies (#[trigger] self@[k]).id != id@ by {
                lemma_before_total(self@[k].id, id@);
            }
        }
        None
    }
}

} // verus!
