//! Where an object is looked for: in the loose object file under its id,
//! and where there is none, in the packs, the first that lists it.

use crate::bytes::file_view;
use crate::commit::{commit_of, result_view, Commit, CommitView};
use crate::error::Error;
use crate::loose::{commit_in, decode_loose, loose_object_of, ObjectKind};
use crate::object_id::ObjectId;
use crate::pack::{packed_object, Pack};
use crate::pack_index::{offset_of, IndexEntryView};
use vstd::prelude::*;

verus! {

/// A pack, as plain values.
pub struct PackView {
    /// The objects that its index lists.
    pub index: Seq<IndexEntryView>,
    /// The bytes of the pack.
    pub data: Seq<u8>,
}

impl View for Pack {
    type V = PackView;

    open spec fn view(&self) -> PackView {
        PackView { index: self.index(), data: self.data() }
    }
}

/// The views of a run of packs.
pub open spec fn packs_view(packs: Seq<Pack>) -> Seq<PackView> {
    Seq::new(packs.len(), |i: int| packs[i]@)
}

/// What asking packs for the object `id` comes to: what the first pack
/// that lists the id holds, and `ObjectNotFound` where none lists it.
pub open spec fn object_in_packs(id: Seq<u8>, packs: Seq<PackView>, limit: usize) -> Result<
    (ObjectKind, Seq<u8>),
    Error,
>
    decreases packs.len(),
{
    if packs.len() == 0 {
        Err(Error::ObjectNotFound)
    } else if offset_of(packs[0].index, id) is Some {
        packed_object(packs[0].data, packs[0].index, id, limit)
    } else {
        object_in_packs(id, packs.drop_first(), limit)
    }
}

/// What asking a store for the object `id` comes to, given the loose
/// object file under that id, if there is one, and the packs: what the
/// loose object file holds where there is one, and else what the packs
/// hold. A loose object file that holds no object is corrupt.
pub open spec fn object_among(
    id: Seq<u8>,
    loose: Option<Seq<u8>>,
    packs: Seq<PackView>,
    limit: usize,
) -> Result<(ObjectKind, Seq<u8>), Error> {
    match loose {
        Some(file) => match loose_object_of(file, limit) {
            Some(object) => Ok(object),
            None => Err(Error::CorruptObject),
        },
        None => object_in_packs(id, packs, limit),
    }
}

/// What asking a store for the commit `id` comes to: the commit that the
/// object under that id is the text of. An object of another kind, and one
/// that is not the text of a commit, is corrupt.
pub open spec fn commit_among(
    id: Seq<u8>,
    loose: Option<Seq<u8>>,
    packs: Seq<PackView>,
    limit: usize,
) -> Result<CommitView, Error> {
    match object_among(id, loose, packs, limit) {
        Ok((ObjectKind::Commit, body)) => match commit_of(id, body) {
            Some(c) => Ok(c),
            None => Err(Error::CorruptObject),
        },
        Ok(_) => Err(Error::CorruptObject),
        Err(e) => Err(e),
    }
}

/// Without packs, a commit is what its loose object file holds.
pub proof fn lemma_no_packs(id: Seq<u8>, loose: Option<Seq<u8>>, limit: usize)
    ensures
        commit_among(id, loose, Seq::empty(), limit) == commit_in(id, loose, limit),
{
}

/// Finds the object `id` in its loose object file or in the packs.
pub fn find_object(id: &ObjectId, loose: Option<&[u8]>, packs: &Vec<Pack>, limit: usize) -> (r:
    Result<(ObjectKind, Vec<u8>), Error>)
    ensures
        match r {
            Ok((kind, body)) => object_among(id@, file_view(loose), packs_view(packs@), limit)
                == Ok::<(ObjectKind, Seq<u8>), Error>((kind, body@)),
            Err(e) => object_among(id@, file_view(loose), packs_view(packs@), limit) == Err::<
                (ObjectKind, Seq<u8>),
                Error,
            >(e),
        },
{
    match loose {
        Some(file) => {
            return decode_loose(file, limit);
        },
        None => {},
    }
    let ghost all = packs_view(packs@);
    assert(all.skip(0) =~= all);
    let mut i: usize = 0;
    while i < packs.len()
        invariant
            loose is None,
            i <= packs@.len(),
            all == packs_view(packs@),
            object_in_packs(id@, all, limit) == object_in_packs(id@, all.skip(i as int), limit),
        decreases packs@.len() - i,
    {
        proof {
            assert(all.skip(i as int).drop_first() =~= all.skip(i + 1));
        }
        if packs[i].contains(id) {
            return packs[i].read(id, limit);
        }
        i += 1;
    }
    Err(Error::ObjectNotFound)
}

/// Finds the commit `id` in its loose object file or in the packs.
pub fn find_commit(id: ObjectId, loose: Option<&[u8]>, packs: &Vec<Pack>, limit: usize) -> (r:
    Result<Commit, Error>)
    ensures
        result_view(r) == commit_among(id@, file_view(loose), packs_view(packs@), limit),
        r matches Ok(c) ==> c@.wf() && c@.id == id@,
{
    match find_object(&id, loose, packs, limit) {
        Ok((ObjectKind::Commit, body)) => Commit::parse(id, body.as_slice()),
        Ok(_) => Err(Error::CorruptObject),
        Err(e) => Err(e),
    }
}

} // verus!
