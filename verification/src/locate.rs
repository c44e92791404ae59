//! Finding the repository that a path lies in, and the files of a
//! repository once it is found.
//!
//! Paths are byte strings with `/` between their parts. The search is by
//! the text of the path alone: from the path to its parent and on, as far
//! as the path itself names them.

use crate::bytes::{
    after_last, append_bytes, bytes_equal_to, copy_range, find_after_last, lacks,
    lemma_after_last,
};
use crate::error::Error;
use crate::object_id::{hex_encode, ObjectId};
use vstd::prelude::*;

verus! {

/// `/`, which parts the names of a path.
pub const SLASH: u8 = 0x2f;

/// `.`
pub const DOT: u8 = 0x2e;

/// The bytes of `.git`, the directory that marks a repository.
pub open spec fn marker_name() -> Seq<u8> {
    seq![0x2e, 0x67, 0x69, 0x74]
}

/// The bytes of `objects`.
pub open spec fn objects_name() -> Seq<u8> {
    seq![0x6f, 0x62, 0x6a, 0x65, 0x63, 0x74, 0x73]
}

/// The bytes of `pack`.
pub open spec fn pack_name() -> Seq<u8> {
    seq![0x70, 0x61, 0x63, 0x6b]
}

/// The bytes of `packed-refs`.
pub open spec fn packed_refs_name() -> Seq<u8> {
    seq![0x70, 0x61, 0x63, 0x6b, 0x65, 0x64, 0x2d, 0x72, 0x65, 0x66, 0x73]
}

/// The bytes of `.idx`, which ends the name of a pack index.
pub open spec fn index_suffix() -> Seq<u8> {
    seq![0x2e, 0x69, 0x64, 0x78]
}

/// The bytes of `.pack`, which ends the name of a pack.
pub open spec fn pack_suffix() -> Seq<u8> {
    seq![0x2e, 0x70, 0x61, 0x63, 0x6b]
}

/// The name of the pack that belongs to the index `name`: `.pack` in place
/// of `.idx` at its end. A name that does not end in `.idx` names no index.
pub open spec fn pack_of_index(name: Seq<u8>) -> Option<Seq<u8>> {
    if name.len() >= 4 && name.skip(name.len() - 4) == index_suffix() {
        Some(name.take(name.len() - 4) + pack_suffix())
    } else {
        None
    }
}

/// Finds the name of the pack that belongs to an index.
pub fn pack_for_index(name: &[u8]) -> (r: Option<Vec<u8>>)
    ensures
        match r {
            Some(pack) => pack_of_index(name@) == Some(pack@),
            None => pack_of_index(name@) is None,
        },
{
    let n: usize = name.len();
    if n < 4 {
        return None;
    }
    let suffix: [u8; 4] = [0x2e, 0x69, 0x64, 0x78];
    let end = vstd::slice::slice_subrange(name, n - 4, n);
    if !bytes_equal_to(end, suffix.as_slice()) {
        return None;
    }
    let mut out = copy_range(name, 0, n - 4);
    out.push(0x2e);
    out.push(0x70);
    out.push(0x61);
    out.push(0x63);
    out.push(0x6b);
    Some(out)
}

/// `name` below the directory `dir`: the two joined with one `/` between
/// them, and `name` alone where `dir` is empty.
pub open spec fn joined(dir: Seq<u8>, name: Seq<u8>) -> Seq<u8> {
    if dir.len() == 0 || dir[dir.len() - 1] == SLASH {
        dir + name
    } else {
        dir + seq![SLASH] + name
    }
}

/// How many bytes of `path` are left when the slashes at its end are taken
/// off; a path of slashes alone keeps one.
pub open spec fn trimmed_len(path: Seq<u8>) -> int
    decreases path.len(),
{
    if path.len() > 1 && path[path.len() - 1] == SLASH {
        trimmed_len(path.drop_last())
    } else {
        path.len() as int
    }
}

/// The place after the last `/` among the first `n` bytes of `path`, or
/// zero where there is none.
pub open spec fn name_start(path: Seq<u8>, n: int) -> int {
    after_last(path, n, SLASH)
}

/// The directory that holds `dir`, as far as the text of `dir` names one:
/// `dir` without its last name and the slashes before it. The root and a
/// single name have no parent.
pub open spec fn parent_of(dir: Seq<u8>) -> Option<Seq<u8>> {
    let n = trimmed_len(dir);
    let start = name_start(dir, n);
    if start == 0 || start == n {
        None
    } else {
        Some(dir.take(trimmed_len(dir.take(start))))
    }
}

/// What `trimmed_len` leaves: a length within the path, and no slash at the
/// end of anything longer than one byte.
pub proof fn lemma_trimmed_len(path: Seq<u8>)
    ensures
        0 <= trimmed_len(path) <= path.len(),
        path.len() > 0 ==> trimmed_len(path) > 0,
        trimmed_len(path) > 1 ==> path[trimmed_len(path) - 1] != SLASH,
        forall|j: int| trimmed_len(path) <= j < path.len() ==> #[trigger] path[j] == SLASH,
    decreases path.len(),
{
    if path.len() > 1 && path[path.len() - 1] == SLASH {
        lemma_trimmed_len(path.drop_last());
        assert forall|j: int| trimmed_len(path) <= j < path.len() implies #[trigger] path[j]
            == SLASH by {
            if j < path.len() - 1 {
                assert(path.drop_last()[j] == SLASH);
            }
        }
    }
}


/// The parent of a directory is a proper prefix of it: the search never
/// leaves the path that it was given.
pub proof fn lemma_parent_is_prefix(dir: Seq<u8>)
    requires
        parent_of(dir) is Some,
    ensures
        0 < parent_of(dir)->0.len() < dir.len(),
        parent_of(dir)->0 == dir.take(parent_of(dir)->0.len() as int),
{
    let n = trimmed_len(dir);
    lemma_trimmed_len(dir);
    lemma_after_last(dir, n, SLASH);
    let start = name_start(dir, n);
    lemma_trimmed_len(dir.take(start));
}

/// The nearest directory from `dir` upwards whose marker is among
/// `markers`, if there is one.
pub open spec fn located(markers: Set<Seq<u8>>, dir: Seq<u8>) -> Option<Seq<u8>>
    decreases dir.len(),
{
    if markers.contains(joined(dir, marker_name())) {
        Some(dir)
    } else {
        match parent_of(dir) {
            Some(p) => if p.len() < dir.len() {
                located(markers, p)
            } else {
                None
            },
            None => None,
        }
    }
}

/// The directory in which a repository is located is the path itself or
/// comes before it in the path, and its marker is among the markers: the
/// search looks nowhere but along the path that it was given.
pub proof fn lemma_located_is_on_the_path(markers: Set<Seq<u8>>, path: Seq<u8>)
    requires
        located(markers, path) is Some,
    ensures
        located(markers, path)->0.len() <= path.len(),
        located(markers, path)->0 == path.take(located(markers, path)->0.len() as int),
        markers.contains(joined(located(markers, path)->0, marker_name())),
    decreases path.len(),
{
    if markers.contains(joined(path, marker_name())) {
        assert(path.take(path.len() as int) =~= path);
    } else {
        let p = parent_of(path)->0;
        lemma_parent_is_prefix(path);
        lemma_located_is_on_the_path(markers, p);
        let found = located(markers, p)->0;
        assert(p.take(found.len() as int) =~= path.take(found.len() as int));
    }
}

/// What one step of the search comes to, as plain values.
#[verifier::ext_equal]
pub enum SearchStepView {
    /// The repository is in this directory.
    Found(Seq<u8>),
    /// The marker of this directory is to be looked for next.
    Probe(Seq<u8>),
    /// There is no repository.
    NotFound,
}

/// One step of the search, after the marker of `dir` was or was not found.
pub open spec fn search_step_of(dir: Seq<u8>, found: bool) -> SearchStepView {
    if found {
        SearchStepView::Found(dir)
    } else {
        match parent_of(dir) {
            Some(p) => SearchStepView::Probe(p),
            None => SearchStepView::NotFound,
        }
    }
}

/// A repository that was found: where it lies and where its files are.
#[derive(Debug, PartialEq, Eq)]
pub struct RepositoryHandle {
    root: Vec<u8>,
    git_dir: Vec<u8>,
}

/// A search under way: the directory whose marker is to be looked for.
#[derive(Debug, PartialEq, Eq)]
pub struct Search {
    dir: Vec<u8>,
}

/// What one step of the search comes to.
#[derive(Debug, PartialEq, Eq)]
pub enum SearchStep {
    /// The repository was found.
    Found(RepositoryHandle),
    /// The marker of the next directory is to be looked for.
    Probe(Search),
    /// There is no repository between the path and the root.
    NotFound,
}

impl View for SearchStep {
    type V = SearchStepView;

    open spec fn view(&self) -> SearchStepView {
        match self {
            SearchStep::Found(handle) => SearchStepView::Found(handle.root()),
            SearchStep::Probe(search) => SearchStepView::Probe(search.dir()),
            SearchStep::NotFound => SearchStepView::NotFound,
        }
    }
}

fn join(dir: &[u8], name: &[u8]) -> (r: Vec<u8>)
    ensures
        r@ == joined(dir@, name@),
{
    let mut out = copy_range(dir, 0, dir.len());
    if dir.len() > 0 && dir[dir.len() - 1] != SLASH {
        out.push(SLASH);
    }
    append_bytes(&mut out, name);
    out
}

fn trim_len(path: &[u8]) -> (n: usize)
    ensures
        n == trimmed_len(path@),
        n <= path@.len(),
{
    let mut n: usize = path.len();
    assert(path@.take(n as int) =~= path@);
    while n > 1 && path[n - 1] == SLASH
        invariant
            n <= path@.len(),
            trimmed_len(path@) == trimmed_len(path@.take(n as int)),
        decreases n,
    {
        assert(path@.take(n as int).drop_last() =~= path@.take(n - 1));
        n -= 1;
    }
    n
}

fn parent(dir: &[u8]) -> (r: Option<Vec<u8>>)
    ensures
        match r {
            Some(p) => parent_of(dir@) == Some(p@),
            None => parent_of(dir@) is None,
        },
{
    let n: usize = trim_len(dir);
    let start: usize = find_after_last(dir, n, SLASH);
    if start == 0 || start == n {
        return None;
    }
    let head = vstd::slice::slice_subrange(dir, 0, start);
    let keep: usize = trim_len(head);
    let p = copy_range(dir, 0, keep);
    Some(p)
}

impl Search {
    /// The directory whose marker is to be looked for.
    pub closed spec fn dir(self) -> Seq<u8> {
        self.dir@
    }

    /// Starts the search at `path`.
    pub fn start(path: &[u8]) -> (r: Search)
        ensures
            r.dir() == path@,
    {
        let dir = copy_range(path, 0, path.len());
        Search { dir }
    }

    /// The path of the marker that the caller is to look for: the directory
    /// `.git` in the directory that the search has come to.
    pub fn marker(&self) -> (r: Vec<u8>)
        ensures
            r@ == joined(self.dir(), marker_name()),
    {
        let name: [u8; 4] = [0x2e, 0x67, 0x69, 0x74];
        join(self.dir.as_slice(), name.as_slice())
    }

    /// Takes whether the marker is there, and says how the search goes on:
    /// it has found the repository, goes on with the parent directory, or
    /// has come to the root without finding one.
    pub fn step(self, found: bool) -> (r: SearchStep)
        ensures
            r@ == search_step_of(self.dir(), found),
            r matches SearchStep::Found(handle) ==> handle.git_dir() == joined(
                self.dir(),
                marker_name(),
            ),
    {
        if found {
            let git_dir = self.marker();
            return SearchStep::Found(RepositoryHandle { root: self.dir, git_dir });
        }
        match parent(self.dir.as_slice()) {
            Some(dir) => SearchStep::Probe(Search { dir }),
            None => SearchStep::NotFound,
        }
    }
}

/// The paths in a list, as a set.
pub open spec fn paths_of(paths: Seq<Vec<u8>>) -> Set<Seq<u8>> {
    Set::new(|p: Seq<u8>| exists|i: int| 0 <= i < paths.len() && (#[trigger] paths[i])@ == p)
}

fn is_among(paths: &Vec<Vec<u8>>, path: &[u8]) -> (r: bool)
    ensures
        r == paths_of(paths@).contains(path@),
{
    let mut i: usize = 0;
    while i < paths.len()
        invariant
            i <= paths@.len(),
            forall|k: int| 0 <= k < i ==> (#[trigger] paths@[k])@ != path@,
        decreases paths@.len() - i,
    {
        if bytes_equal_to(paths[i].as_slice(), path) {
            return true;
        }
        i += 1;
    }
    false
}

/// Finds the repository that `path` lies in, among directories of which
/// `markers` lists the markers that are there: the nearest directory from
/// `path` upwards whose marker is listed. Where none is, there is no
/// repository.
pub fn locate(path: &[u8], markers: &Vec<Vec<u8>>) -> (r: Result<RepositoryHandle, Error>)
    ensures
        match r {
            Ok(handle) => located(paths_of(markers@), path@) == Some(handle.root())
                && handle.git_dir() == joined(handle.root(), marker_name()),
            Err(e) => e == Error::RepoNotFound && located(paths_of(markers@), path@) is None,
        },
{
    let mut search = Search::start(path);
    loop
        invariant
            located(paths_of(markers@), path@) == located(paths_of(markers@), search.dir()),
        decreases search.dir().len(),
    {
        let ghost dir = search.dir();
        proof {
            if parent_of(dir) is Some {
                lemma_parent_is_prefix(dir);
            }
        }
        let marker = search.marker();
        let found = is_among(markers, marker.as_slice());
        match search.step(found) {
            SearchStep::Found(handle) => {
                return Ok(handle);
            },
            SearchStep::Probe(next) => {
                search = next;
            },
            SearchStep::NotFound => {
                return Err(Error::RepoNotFound);
            },
        }
    }
}

/// Whether a reference name is safe to look for below the repository: it
/// is not empty, holds no zero byte, and none of its parts is empty, `.`
/// or `..`.
pub open spec fn is_safe_name(name: Seq<u8>) -> bool {
    &&& name.len() > 0
    &&& lacks(name, 0)
    &&& forall|i: int| 0 <= i <= name.len() ==> !bad_part_at(name, i)
}

/// Whether a part of `name` that is empty, `.` or `..` starts at `i`.
pub open spec fn bad_part_at(name: Seq<u8>, i: int) -> bool {
    &&& (i == 0 || name[i - 1] == SLASH)
    &&& {
        ||| ends_at(name, i)
        ||| (name[i] == DOT && ends_at(name, i + 1))
        ||| (name[i] == DOT && name[i + 1] == DOT && ends_at(name, i + 2))
    }
}

/// Whether a part of `name` ends at `i`: the name ends there or has a `/`.
pub open spec fn ends_at(name: Seq<u8>, i: int) -> bool {
    i == name.len() || (0 <= i < name.len() && name[i] == SLASH)
}

fn part_ends(name: &[u8], i: usize) -> (r: bool)
    requires
        i <= name@.len(),
    ensures
        r == ends_at(name@, i as int),
{
    i == name.len() || name[i] == SLASH
}

/// Tests whether a reference name is safe to look for.
pub fn check_name(name: &[u8]) -> (r: bool)
    ensures
        r == is_safe_name(name@),
{
    let n: usize = name.len();
    if n == 0 {
        return false;
    }
    if name[n - 1] == SLASH {
        assert(bad_part_at(name@, n as int));
        return false;
    }
    let mut i: usize = 0;
    while i < n
        invariant
            n == name@.len(),
            n > 0,
            i <= n,
            forall|j: int| 0 <= j < i ==> #[trigger] name@[j] != 0,
            forall|j: int| 0 <= j < i ==> !bad_part_at(name@, j),
        decreases n - i,
    {
        if name[i] == 0 {
            return false;
        }
        if i == 0 || name[i - 1] == SLASH {
            if part_ends(name, i) {
                assert(bad_part_at(name@, i as int));
                return false;
            }
            if name[i] == DOT {
                if part_ends(name, i + 1) {
                    assert(bad_part_at(name@, i as int));
                    return false;
                }
                if name[i + 1] == DOT && part_ends(name, i + 2) {
                    assert(bad_part_at(name@, i as int));
                    return false;
                }
            }
        }
        i += 1;
    }
    true
}

/// Where the file of the loose object `id` lies below the repository:
/// `objects`, a directory of the first two hex digits of the id, a file of
/// the rest.
pub open spec fn loose_path(git_dir: Seq<u8>, id: Seq<u8>) -> Seq<u8> {
    let hex = hex_encode(id);
    joined(git_dir, objects_name()) + seq![SLASH] + hex.take(2) + seq![SLASH] + hex.skip(2)
}

impl RepositoryHandle {
    /// The directory in which the repository was found.
    pub closed spec fn root(self) -> Seq<u8> {
        self.root@
    }

    /// The directory that holds the repository's own files.
    pub closed spec fn git_dir(self) -> Seq<u8> {
        self.git_dir@
    }

    /// The directory in which the repository was found.
    pub fn root_path(&self) -> (r: &[u8])
        ensures
            r@ == self.root(),
    {
        self.root.as_slice()
    }

    /// The directory that holds the repository's own files.
    pub fn git_path(&self) -> (r: &[u8])
        ensures
            r@ == self.git_dir(),
    {
        self.git_dir.as_slice()
    }

    /// The path of the file that holds the loose object `id`.
    pub fn object_path(&self, id: &ObjectId) -> (r: Vec<u8>)
        ensures
            r@ == loose_path(self.git_dir(), id@),
    {
        proof {
            use_type_invariant(id);
        }
        let name: [u8; 7] = [0x6f, 0x62, 0x6a, 0x65, 0x63, 0x74, 0x73];
        let hex = id.to_hex();
        let mut out = join(self.git_dir.as_slice(), name.as_slice());
        out.push(SLASH);
        out.push(hex[0]);
        out.push(hex[1]);
        out.push(SLASH);
        let rest = vstd::slice::slice_subrange(hex.as_slice(), 2, hex.len());
        append_bytes(&mut out, rest);
        out
    }

    /// The directory that holds the packs and their indexes.
    pub fn pack_dir(&self) -> (r: Vec<u8>)
        ensures
            r@ == joined(joined(self.git_dir(), objects_name()), pack_name()),
    {
        let objects: [u8; 7] = [0x6f, 0x62, 0x6a, 0x65, 0x63, 0x74, 0x73];
        let pack: [u8; 4] = [0x70, 0x61, 0x63, 0x6b];
        let dir = join(self.git_dir.as_slice(), objects.as_slice());
        join(dir.as_slice(), pack.as_slice())
    }

    /// The path of the file of packed references.
    pub fn packed_refs_path(&self) -> (r: Vec<u8>)
        ensures
            r@ == joined(self.git_dir(), packed_refs_name()),
    {
        let name: [u8; 11] = [0x70, 0x61, 0x63, 0x6b, 0x65, 0x64, 0x2d, 0x72, 0x65, 0x66, 0x73];
        join(self.git_dir.as_slice(), name.as_slice())
    }

    /// The path of the file that holds the reference `name`, or `None`
    /// where the name is not safe to look for.
    pub fn ref_path(&self, name: &[u8]) -> (r: Option<Vec<u8>>)
        ensures
            match r {
                Some(path) => is_safe_name(name@) && path@ == joined(self.git_dir(), name@),
                None => !is_safe_name(name@),
            },
    {
        if check_name(name) {
            Some(join(self.git_dir.as_slice(), name))
        } else {
            None
        }
    }
}

} // verus!
