//! References: named pointers to an object id, directly or through another
//! reference, and the rule for following them.

use crate::bytes::{
    copy_range, file_of, file_view, find_byte, has_at, lacks, lemma_find_from, starts_at, Files,
    NL,
};
use crate::error::RefResolutionError;
use crate::object_id::{
    hex_decode, hex_encode, is_hex_digit, is_hex_id, is_id_len, lemma_hex_decode_encode, ObjectId,
};
use vstd::prelude::*;

verus! {

/// How many symbolic references a resolution follows before it gives up.
pub const MAX_HOPS: usize = 10;

/// What a reference points at, as plain values.
#[verifier::ext_equal]
pub enum RefTargetView {
    /// An object id.
    Direct(Seq<u8>),
    /// The name of another reference.
    Symbolic(Seq<u8>),
}

impl RefTargetView {
    /// What holds of every target: an id of 20 or 32 bytes, or a name that
    /// is not empty and holds no line feed.
    pub open spec fn wf(self) -> bool {
        match self {
            RefTargetView::Direct(id) => is_id_len(id.len()),
            RefTargetView::Symbolic(name) => name.len() > 0 && lacks(name, NL),
        }
    }
}

/// The bytes of `ref: `.
pub open spec fn ref_word() -> Seq<u8> {
    seq![0x72, 0x65, 0x66, 0x3a, 0x20]
}

/// The contents of a reference file without the line feed that may end it.
pub open spec fn ref_line(contents: Seq<u8>) -> Seq<u8> {
    if contents.len() > 0 && contents[contents.len() - 1] == NL {
        contents.drop_last()
    } else {
        contents
    }
}

/// What the contents of a reference file point at: an id where they are 40
/// or 64 hex digits, a name where they are `ref: ` and a name, each with
/// or without a line feed at the end; nothing otherwise.
pub open spec fn ref_target_of(contents: Seq<u8>) -> Option<RefTargetView> {
    let line = ref_line(contents);
    if is_hex_id(line) {
        Some(RefTargetView::Direct(hex_decode(line)))
    } else if has_at(line, 0, ref_word()) && line.len() > 5 && lacks(line, NL) {
        Some(RefTargetView::Symbolic(line.skip(5)))
    } else {
        None
    }
}

/// The contents of a reference file that points at `target`.
pub open spec fn ref_text(target: RefTargetView) -> Seq<u8> {
    match target {
        RefTargetView::Direct(id) => hex_encode(id) + seq![NL],
        RefTargetView::Symbolic(name) => ref_word() + name + seq![NL],
    }
}

/// The file written for a target is read as that target.
pub proof fn lemma_ref_target_of_text(target: RefTargetView)
    requires
        target.wf(),
    ensures
        ref_target_of(ref_text(target)) == Some(target),
{
    let text = ref_text(target);
    let line = ref_line(text);
    match target {
        RefTargetView::Direct(id) => {
            lemma_hex_decode_encode(id);
        },
        RefTargetView::Symbolic(name) => {
            assert(line.subrange(0, 5) =~= ref_word());
            assert forall|i: int| 0 <= i < line.len() implies #[trigger] line[i] != NL by {
                if i >= 5 {
                    assert(line[i] == name[i - 5]);
                }
            }
        },
    }
}

/// What a reference points at.
#[derive(Debug, PartialEq, Eq)]
pub enum RefTarget {
    /// An object id.
    Direct(ObjectId),
    /// The name of another reference.
    Symbolic(Vec<u8>),
}

impl View for RefTarget {
    type V = RefTargetView;

    open spec fn view(&self) -> RefTargetView {
        match self {
            RefTarget::Direct(id) => RefTargetView::Direct(id@),
            RefTarget::Symbolic(name) => RefTargetView::Symbolic(name@),
        }
    }
}

/// The view of a target that may be missing.
pub open spec fn target_view(target: Option<RefTarget>) -> Option<RefTargetView> {
    match target {
        Some(t) => Some(t@),
        None => None,
    }
}

/// Reads the contents of a reference file.
pub fn parse_ref(contents: &[u8]) -> (r: Option<RefTarget>)
    ensures
        target_view(r) == ref_target_of(contents@),
        r matches Some(t) ==> t@.wf(),
{
    let n: usize = contents.len();
    let end: usize = if n > 0 && contents[n - 1] == NL {
        n - 1
    } else {
        n
    };
    let line = vstd::slice::slice_subrange(contents, 0, end);
    assert(line@ =~= ref_line(contents@));
    match ObjectId::from_hex(line) {
        Ok(id) => {
            proof {
                use_type_invariant(&id);
            }
            return Some(RefTarget::Direct(id));
        },
        Err(_) => {},
    }
    let word: [u8; 5] = [0x72, 0x65, 0x66, 0x3a, 0x20];
    if !starts_at(line, 0, word.as_slice()) || end <= 5 {
        return None;
    }
    let nl: usize = find_byte(line, 0, NL);
    proof {
        lemma_find_from(line@, 0, NL);
    }
    if nl < end {
        return None;
    }
    let name = copy_range(line, 5, end);
    assert forall|i: int| 0 <= i < name@.len() implies #[trigger] name@[i] != NL by {
        assert(name@[i] == line@[i + 5]);
    }
    Some(RefTarget::Symbolic(name))
}

/// Where a resolution stands after one reference file was read.
#[verifier::ext_equal]
pub enum StepView {
    /// The file named another reference, which is to be read next; `hops`
    /// symbolic references have been followed so far.
    Follow { name: Seq<u8>, hops: nat },
    /// The file held an object id.
    Found(Seq<u8>),
    /// The resolution has failed.
    Failed(RefResolutionError),
}

/// One step of a resolution that has followed `hops` symbolic references:
/// what to do with the contents of the file that was asked for, `None`
/// standing for a file that does not exist. A missing file, and contents
/// that point at nothing, leave the reference dangling; the pointer after
/// the tenth is one too many.
pub open spec fn step_of(hops: nat, contents: Option<Seq<u8>>) -> StepView {
    match contents {
        None => StepView::Failed(RefResolutionError::Dangling),
        Some(c) => match ref_target_of(c) {
            None => StepView::Failed(RefResolutionError::Dangling),
            Some(RefTargetView::Direct(id)) => StepView::Found(id),
            Some(RefTargetView::Symbolic(next)) => if hops >= MAX_HOPS {
                StepView::Failed(RefResolutionError::CycleOrTooDeep)
            } else {
                StepView::Follow { name: next, hops: hops + 1 }
            },
        },
    }
}

/// What resolving `name` comes to in a store that holds `files`, after
/// `hops` symbolic references have been followed already.
pub open spec fn resolve_from(files: Files, name: Seq<u8>, hops: nat) -> Result<
    Seq<u8>,
    RefResolutionError,
>
    decreases MAX_HOPS + 1 - hops,
{
    match step_of(hops, file_of(files, name)) {
        StepView::Found(id) => Ok(id),
        StepView::Failed(e) => Err(e),
        StepView::Follow { name: next, hops: h } => if hops < MAX_HOPS {
            resolve_from(files, next, h)
        } else {
            Err(RefResolutionError::CycleOrTooDeep)
        },
    }
}

/// What resolving `name` comes to in a store that holds `files`.
pub open spec fn resolve_in(files: Files, name: Seq<u8>) -> Result<Seq<u8>, RefResolutionError> {
    resolve_from(files, name, 0)
}

/// Whether every name in `names` is a symbolic reference to a name in
/// `names`: a set of references that lead to each other and to no object.
pub open spec fn leads_nowhere(files: Files, names: Set<Seq<u8>>) -> bool {
    forall|n: Seq<u8>| #[trigger]
        names.contains(n) ==> files.dom().contains(n) && (ref_target_of(files[n]) matches Some(
            RefTargetView::Symbolic(next),
        ) && names.contains(next))
}

/// References that lead to each other in a circle, or in a chain without
/// end, resolve to `CycleOrTooDeep`.
pub proof fn lemma_cycle_is_an_error(files: Files, names: Set<Seq<u8>>, name: Seq<u8>, hops: nat)
    requires
        leads_nowhere(files, names),
        names.contains(name),
        hops <= MAX_HOPS,
    ensures
        resolve_from(files, name, hops) == Err::<Seq<u8>, RefResolutionError>(
            RefResolutionError::CycleOrTooDeep,
        ),
    decreases MAX_HOPS - hops,
{
    if hops < MAX_HOPS {
        let next = ref_target_of(files[name])->0->Symbolic_0;
        lemma_cycle_is_an_error(files, names, next, hops + 1);
    }
}

/// A reference that holds an object id resolves to that id.
pub proof fn lemma_direct_resolves(files: Files, name: Seq<u8>, id: Seq<u8>)
    requires
        files.dom().contains(name),
        ref_target_of(files[name]) == Some(RefTargetView::Direct(id)),
    ensures
        resolve_in(files, name) == Ok::<Seq<u8>, RefResolutionError>(id),
{
}

/// A reference that names another resolves to what the other resolves to
/// one hop further on.
pub proof fn lemma_symbolic_resolves(files: Files, name: Seq<u8>, next: Seq<u8>, hops: nat)
    requires
        hops < MAX_HOPS,
        files.dom().contains(name),
        ref_target_of(files[name]) == Some(RefTargetView::Symbolic(next)),
    ensures
        resolve_from(files, name, hops) == resolve_from(files, next, hops + 1),
{
}

/// Where the search for the starting points of a listing stands after
/// one reference file was read.
#[verifier::ext_equal]
pub enum SeedStepView {
    /// The file named another reference, which is to be read next.
    Follow { name: Seq<u8>, hops: nat },
    /// The listing starts from these ids.
    Seeds(Seq<Seq<u8>>),
    /// The start reference does not resolve.
    Failed(RefResolutionError),
}

/// One step of the search for the starting points of a listing. It goes as
/// `step_of` does, but for this: a chain that dangles after at least one
/// symbolic reference was followed is a branch without commits, and the
/// listing starts from nothing.
pub open spec fn seed_step_of(hops: nat, contents: Option<Seq<u8>>) -> SeedStepView {
    match step_of(hops, contents) {
        StepView::Follow { name, hops: h } => SeedStepView::Follow { name, hops: h },
        StepView::Found(id) => SeedStepView::Seeds(seq![id]),
        StepView::Failed(RefResolutionError::Dangling) => if hops >= 1 {
            SeedStepView::Seeds(Seq::empty())
        } else {
            SeedStepView::Failed(RefResolutionError::Dangling)
        },
        StepView::Failed(e) => SeedStepView::Failed(e),
    }
}

/// The ids that a listing from `name` starts from in a store that holds
/// `files`, after `hops` symbolic references have been followed already.
pub open spec fn start_points_from(files: Files, name: Seq<u8>, hops: nat) -> Result<
    Seq<Seq<u8>>,
    RefResolutionError,
>
    decreases MAX_HOPS + 1 - hops,
{
    match seed_step_of(hops, file_of(files, name)) {
        SeedStepView::Seeds(ids) => Ok(ids),
        SeedStepView::Failed(e) => Err(e),
        SeedStepView::Follow { name: next, hops: h } => if hops < MAX_HOPS {
            start_points_from(files, next, h)
        } else {
            Err(RefResolutionError::CycleOrTooDeep)
        },
    }
}

/// The ids that a listing from the reference `name` starts from.
pub open spec fn start_points(files: Files, name: Seq<u8>) -> Result<
    Seq<Seq<u8>>,
    RefResolutionError,
> {
    start_points_from(files, name, 0)
}

/// Whether `name` is a symbolic reference in a store that holds `files`.
pub open spec fn is_symbolic(files: Files, name: Seq<u8>) -> bool {
    file_of(files, name) matches Some(contents) && ref_target_of(contents) matches Some(
        RefTargetView::Symbolic(_),
    )
}

/// What the starting points of a listing are in terms of resolution: the
/// id that the reference resolves to; nothing where the reference is
/// symbolic and dangles; a failure otherwise.
pub open spec fn start_points_of(
    resolved: Result<Seq<u8>, RefResolutionError>,
    followed: bool,
) -> Result<Seq<Seq<u8>>, RefResolutionError> {
    match resolved {
        Ok(id) => Ok(seq![id]),
        Err(RefResolutionError::Dangling) => if followed {
            Ok(Seq::empty())
        } else {
            Err(RefResolutionError::Dangling)
        },
        Err(e) => Err(e),
    }
}

proof fn lemma_start_points_from(files: Files, name: Seq<u8>, hops: nat)
    requires
        hops <= MAX_HOPS,
    ensures
        start_points_from(files, name, hops) == start_points_of(
            resolve_from(files, name, hops),
            hops >= 1 || is_symbolic(files, name),
        ),
    decreases MAX_HOPS - hops,
{
    match step_of(hops, file_of(files, name)) {
        StepView::Follow { name: next, hops: h } => {
            lemma_start_points_from(files, next, h);
        },
        _ => {},
    }
}

/// A listing starts from the id that its start reference resolves to, and
/// from nothing where the start reference is symbolic and leads to a
/// reference that dangles; otherwise it fails as the resolution does.
pub proof fn lemma_start_points(files: Files, name: Seq<u8>)
    ensures
        start_points(files, name) == start_points_of(
            resolve_in(files, name),
            is_symbolic(files, name),
        ),
{
    lemma_start_points_from(files, name, 0);
}

/// A reference that points at a branch which does not exist yet resolves
/// to `Dangling`, and a listing from it starts from nothing.
pub proof fn lemma_unborn_branch(files: Files, head: Seq<u8>, branch: Seq<u8>)
    requires
        file_of(files, head) matches Some(contents) && ref_target_of(contents) == Some(
            RefTargetView::Symbolic(branch),
        ),
        file_of(files, branch) is None,
    ensures
        resolve_in(files, head) == Err::<Seq<u8>, RefResolutionError>(
            RefResolutionError::Dangling,
        ),
        start_points(files, head) == Ok::<Seq<Seq<u8>>, RefResolutionError>(Seq::empty()),
{
    assert(resolve_from(files, branch, 1) == Err::<Seq<u8>, RefResolutionError>(
        RefResolutionError::Dangling,
    ));
    assert(start_points_from(files, branch, 1) == Ok::<Seq<Seq<u8>>, RefResolutionError>(
        Seq::empty(),
    ));
}

/// A resolution under way: the reference whose file is to be read next, and
/// how many symbolic references have been followed to get there.
#[derive(Debug, PartialEq, Eq)]
pub struct Resolver {
    name: Vec<u8>,
    hops: usize,
}

/// What one step of a resolution comes to.
#[derive(Debug, PartialEq, Eq)]
pub enum RefStep {
    /// Another file is to be read.
    Follow(Resolver),
    /// The reference resolves to this id.
    Found(ObjectId),
    /// The resolution has failed.
    Failed(RefResolutionError),
}

/// What one step of the search for the starting points of a listing comes
/// to.
#[derive(Debug, PartialEq, Eq)]
pub enum SeedStep {
    /// Another file is to be read.
    Follow(Resolver),
    /// The listing starts from these ids.
    Seeds(Vec<ObjectId>),
    /// The start reference does not resolve.
    Failed(RefResolutionError),
}

impl View for SeedStep {
    type V = SeedStepView;

    open spec fn view(&self) -> SeedStepView {
        match self {
            SeedStep::Follow(r) => SeedStepView::Follow { name: r.name(), hops: r.hops() },
            SeedStep::Seeds(ids) => SeedStepView::Seeds(Seq::new(ids@.len(), |i: int| ids@[i]@)),
            SeedStep::Failed(e) => SeedStepView::Failed(*e),
        }
    }
}

impl View for RefStep {
    type V = StepView;

    open spec fn view(&self) -> StepView {
        match self {
            RefStep::Follow(r) => StepView::Follow { name: r.name(), hops: r.hops() },
            RefStep::Found(id) => StepView::Found(id@),
            RefStep::Failed(e) => StepView::Failed(*e),
        }
    }
}

impl Resolver {
    /// No resolution follows more than ten symbolic references.
    #[verifier::type_invariant]
    pub open spec fn well_formed(self) -> bool {
        self.hops() <= MAX_HOPS
    }

    /// The name of the reference whose file is to be read next.
    pub closed spec fn name(self) -> Seq<u8> {
        self.name@
    }

    /// How many symbolic references have been followed so far.
    pub closed spec fn hops(self) -> nat {
        self.hops as nat
    }

    /// Starts resolving `name`.
    pub fn start(name: &[u8]) -> (r: Resolver)
        ensures
            r.name() == name@,
            r.hops() == 0,
    {
        let wanted = copy_range(name, 0, name.len());
        Resolver { name: wanted, hops: 0 }
    }

    /// The name of the reference whose file is to be read next.
    pub fn wanted(&self) -> (r: &[u8])
        ensures
            r@ == self.name(),
    {
        self.name.as_slice()
    }

    /// Takes the contents of the file that was asked for, as `step` does,
    /// and says how the search for the starting points of a listing goes on.
    pub fn seed_step(self, contents: Option<&[u8]>) -> (r: SeedStep)
        ensures
            r@ == seed_step_of(self.hops(), file_view(contents)),
    {
        let followed: bool = self.hops >= 1;
        match self.step(contents) {
            RefStep::Follow(next) => SeedStep::Follow(next),
            RefStep::Found(id) => {
                let mut ids: Vec<ObjectId> = Vec::new();
                ids.push(id);
                SeedStep::Seeds(ids)
            },
            RefStep::Failed(RefResolutionError::Dangling) => {
                if followed {
                    let ids: Vec<ObjectId> = Vec::new();
                    SeedStep::Seeds(ids)
                } else {
                    SeedStep::Failed(RefResolutionError::Dangling)
                }
            },
            RefStep::Failed(e) => SeedStep::Failed(e),
        }
    }

    /// Takes the contents of the file that was asked for, `None` where there
    /// is no such file, and says how the resolution goes on.
    pub fn step(self, contents: Option<&[u8]>) -> (r: RefStep)
        ensures
            r@ == step_of(self.hops(), file_view(contents)),
    {
        proof {
            use_type_invariant(&self);
        }
        let bytes = match contents {
            Some(bytes) => bytes,
            None => {
                return RefStep::Failed(RefResolutionError::Dangling);
            },
        };
        match parse_ref(bytes) {
            None => RefStep::Failed(RefResolutionError::Dangling),
            Some(RefTarget::Direct(id)) => RefStep::Found(id),
            Some(RefTarget::Symbolic(next)) => {
                if self.hops >= MAX_HOPS {
                    RefStep::Failed(RefResolutionError::CycleOrTooDeep)
                } else {
                    RefStep::Follow(Resolver { name: next, hops: self.hops + 1 })
                }
            },
        }
    }
}

} // verus!
