use vstd::prelude::*;
use crate::buffer::{
    id_subsequence, lemma_id_subsequence_refl, lemma_id_subsequence_trans, slot_ids, BufferWeakSet,
    SharedBuffer, TextBuffer,
};
use crate::paths::{str_chars, CrossPath};
use crate::search::{search_wf, PathSearch};
use crate::status::{new_status_cell, PathSearchStatus, SearchObserver};
use crate::tree::{tree_wf, Tree, TreeView};

verus! {

/// Everything a project operation can fail with. `IoError` preserves the
/// file provider's human-readable description; `RpcError` surfaces a
/// transport failure unchanged; `UnexpectedResponse` is reserved for a peer
/// response whose shape does not match the request.
#[derive(Clone, Debug, PartialEq)]
pub enum Error {
    BufferNotFound,
    TreeNotFound,
    IoError(String),
    RpcError(String),
    UnexpectedResponse,
}

/// The stable identity of an opened file: two handles refer to the same
/// underlying file exactly when their identities are equal.
#[derive(Clone, Copy, Debug, PartialEq, Eq, Structural)]
pub struct FileKey {
    pub id: usize,
}

/// The file provider a local project opens and reads files through. An
/// external collaborator: implementations decide what exists at a path and
/// what it holds, and report failures as human-readable messages.
pub trait FileSource {
    fn open(&self, path: &CrossPath) -> Result<FileKey, String>;

    fn read(&self, file: &FileKey) -> Result<String, String>;
}

/// The tree views of a sequence of trees, in order.
pub open spec fn trees_view(ts: Seq<Tree>) -> Seq<TreeView> {
    Seq::new(ts.len(), |t: int| ts[t]@)
}

/// A project over local trees: it owns the tree snapshots, the shared
/// buffer registry, and the buffer-id counter. Repository ids are the dense
/// indices into `trees`, assigned in registration order.
pub struct LocalProject {
    pub trees: Vec<Tree>,
    pub next_buffer_id: usize,
    pub buffers: BufferWeakSet,
}

pub open spec fn project_wf(p: &LocalProject) -> bool {
    forall|t: int| 0 <= t < p.trees@.len() ==> tree_wf(#[trigger] p.trees@[t]@)
}

impl LocalProject {
    /// A project over the given trees; the tree at index `i` gets
    /// repository id `i` for the life of the project.
    pub fn new(trees: Vec<Tree>) -> (r: Self)
        ensures
            r.trees == trees,
            r.next_buffer_id == 0,
            slot_ids(r.buffers.buffers@) =~= Seq::<int>::empty(),
    {
        LocalProject { trees, next_buffer_id: 0, buffers: BufferWeakSet::new() }
    }

    /// The absolute path of `relative_path` inside the repository
    /// `repo_id`: the tree's root path followed by the relative components.
    /// `None` exactly when the repository is unknown.
    pub fn resolve_path(&self, repo_id: usize, relative_path: &CrossPath) -> (r: Option<CrossPath>)
        ensures
            r is Some <==> repo_id < self.trees@.len(),
            r matches Some(p) ==> p@ =~= self.trees@[repo_id as int].root_path@ + relative_path@,
    {
        if repo_id < self.trees.len() {
            let mut absolute = self.trees[repo_id].root_path.duplicate();
            absolute.push_path(relative_path);
            Some(absolute)
        } else {
            None
        }
    }

    /// The final leg of an open: consults the registry again (a concurrent
    /// open may have installed a buffer for this file identity since the
    /// content was read) and returns the installed buffer if so; otherwise
    /// allocates a fresh buffer id, fills a new buffer with `content`, binds
    /// the file, installs it, and returns the sole strong reference.
    pub fn complete_open(&mut self, file_id: usize, content: &str) -> (r: SharedBuffer)
        requires
            old(self).next_buffer_id < usize::MAX,
        ensures
            final(self).trees == old(self).trees,
            (final(self).next_buffer_id == old(self).next_buffer_id && id_subsequence(
                slot_ids(final(self).buffers.buffers@),
                slot_ids(old(self).buffers.buffers@),
            )) || (final(self).next_buffer_id == old(self).next_buffer_id + 1 && (exists|
                pre: Seq<int>,
            |
                #![auto]
                slot_ids(final(self).buffers.buffers@) == pre.push(old(self).next_buffer_id as int)
                    && id_subsequence(pre, slot_ids(old(self).buffers.buffers@)))),
            old(self).buffers.buffers@.len() == 0 ==> (final(self).next_buffer_id == old(
                self,
            ).next_buffer_id + 1 && slot_ids(final(self).buffers.buffers@) =~= seq![
                old(self).next_buffer_id as int,
            ]),
    {
        if let Some(existing) = self.buffers.find_by_file_id(file_id) {
            return existing;
        }
        let ghost pre = slot_ids(self.buffers.buffers@);
        let buffer_id = self.next_buffer_id;
        self.next_buffer_id = self.next_buffer_id + 1;
        let mut buffer = TextBuffer::new();
        buffer.edit(0, 0, content);
        buffer.set_file(file_id);
        let shared = self.buffers.insert(buffer_id, buffer);
        proof {
            assert(slot_ids(self.buffers.buffers@) == pre.push(old(self).next_buffer_id as int));
            if old(self).buffers.buffers@.len() == 0 {
                assert(pre =~= Seq::<int>::empty());
                assert(slot_ids(self.buffers.buffers@) =~= seq![old(self).next_buffer_id as int]);
            }
        }
        shared
    }

    /// Opens the buffer for `(repo_id, relative_path)`, de-duplicating
    /// against every outstanding buffer: fails with `TreeNotFound` exactly
    /// when the repository is unknown; surfaces a provider failure as
    /// `IoError` with its message; otherwise returns a strong reference to
    /// the single live buffer for the file's identity — the one already
    /// outstanding if there is one, else a fresh buffer holding the
    /// provider's content. The registry is consulted once before and once
    /// after the content is read, so two interleaved opens of the same path
    /// resolve to the same buffer.
    pub fn open_path<F: FileSource>(
        &mut self,
        provider: &F,
        repo_id: usize,
        relative_path: &CrossPath,
    ) -> (r: Result<SharedBuffer, Error>)
        requires
            old(self).next_buffer_id < usize::MAX,
        ensures
            final(self).trees == old(self).trees,
            repo_id >= old(self).trees@.len() <==> r == Err::<SharedBuffer, Error>(
                Error::TreeNotFound,
            ),
            r is Err ==> (r matches Err(Error::TreeNotFound) || r matches Err(Error::IoError(_))),
            r == Err::<SharedBuffer, Error>(Error::TreeNotFound) ==> *final(self) == *old(self),
            r is Err ==> final(self).next_buffer_id == old(self).next_buffer_id && id_subsequence(
                slot_ids(final(self).buffers.buffers@),
                slot_ids(old(self).buffers.buffers@),
            ),
            (final(self).next_buffer_id == old(self).next_buffer_id && id_subsequence(
                slot_ids(final(self).buffers.buffers@),
                slot_ids(old(self).buffers.buffers@),
            )) || (r is Ok && final(self).next_buffer_id == old(self).next_buffer_id + 1 && (exists|
                pre: Seq<int>,
            |
                #![auto]
                slot_ids(final(self).buffers.buffers@) == pre.push(old(self).next_buffer_id as int)
                    && id_subsequence(pre, slot_ids(old(self).buffers.buffers@)))),
    {
        proof {
            lemma_id_subsequence_refl(slot_ids(self.buffers.buffers@));
        }
        let absolute = match self.resolve_path(repo_id, relative_path) {
            Some(p) => p,
            None => {
                return Err(Error::TreeNotFound);
            },
        };
        let file = match provider.open(&absolute) {
            Ok(f) => f,
            Err(message) => {
                return Err(Error::IoError(message));
            },
        };
        let ghost ids0 = slot_ids(self.buffers.buffers@);
        if let Some(existing) = self.buffers.find_by_file_id(file.id) {
            return Ok(existing);
        }
        let content = match provider.read(&file) {
            Ok(c) => c,
            Err(message) => {
                return Err(Error::IoError(message));
            },
        };
        let ghost ids_mid = slot_ids(self.buffers.buffers@);
        let shared = self.complete_open(file.id, content.as_str());
        proof {
            if self.next_buffer_id == old(self).next_buffer_id {
                lemma_id_subsequence_trans(slot_ids(self.buffers.buffers@), ids_mid, ids0);
            } else {
                let pre = choose|pre: Seq<int>|
                    #![auto]
                    slot_ids(self.buffers.buffers@) == pre.push(old(self).next_buffer_id as int)
                        && id_subsequence(pre, ids_mid);
                lemma_id_subsequence_trans(pre, ids_mid, ids0);
            }
        }
        Ok(shared)
    }

    /// The live buffer registered under `buffer_id`, or `BufferNotFound`:
    /// in particular whenever no registry slot carries that id.
    pub fn open_buffer(&mut self, buffer_id: usize) -> (r: Result<SharedBuffer, Error>)
        ensures
            final(self).trees == old(self).trees,
            final(self).next_buffer_id == old(self).next_buffer_id,
            id_subsequence(
                slot_ids(final(self).buffers.buffers@),
                slot_ids(old(self).buffers.buffers@),
            ),
            r is Err ==> r matches Err(Error::BufferNotFound),
            !slot_ids(old(self).buffers.buffers@).contains(buffer_id as int) ==> r matches Err(
                Error::BufferNotFound,
            ),
            r is Ok ==> slot_ids(old(self).buffers.buffers@).contains(buffer_id as int),
    {
        match self.buffers.find_by_buffer_id(buffer_id) {
            Some(b) => Ok(b),
            None => Err(Error::BufferNotFound),
        }
    }

    /// A path search over a snapshot of this project's trees, and the
    /// observer whose liveness keeps the search going. The search starts
    /// `Pending`; dropping the observer cancels it.
    pub fn search_paths(&self, needle: &str, max_results: usize, include_ignored: bool) -> (r: (
        PathSearch,
        SearchObserver,
    ))
        ensures
            r.0@.trees =~= trees_view(self.trees@),
            r.0@.needle == needle@,
            r.0@.max_results == max_results as int,
            r.0@.include_ignored == include_ignored,
            r.0@.repo_ids =~= Seq::new(self.trees@.len(), |t: int| t),
            project_wf(self) && max_results >= 1 ==> search_wf(r.0@),
            r.1.initial_status() is Pending,
    {
        let observer = new_status_cell(PathSearchStatus::Pending);
        let updates = observer.weak_handle();
        let search = PathSearch {
            repo_ids: identity_repo_ids(self.trees.len()),
            trees: duplicate_trees(&self.trees),
            needle: str_chars(needle),
            max_results,
            include_ignored,
            updates,
        };
        (search, observer)
    }
}

/// The dense repository ids `0..count`, in order.
pub(crate) fn identity_repo_ids(count: usize) -> (r: Vec<usize>)
    ensures
        r@.len() == count,
        forall|t: int| 0 <= t < count ==> r@[t] == t,
{
    let mut out: Vec<usize> = Vec::new();
    let mut i: usize = 0;
    while i < count
        invariant
            i <= count,
            out@.len() == i,
            forall|t: int| 0 <= t < i ==> out@[t] == t,
        decreases count - i,
    {
        out.push(i);
        i += 1;
    }
    out
}

/// Copies of all trees, views preserved.
pub(crate) fn duplicate_trees(trees: &Vec<Tree>) -> (r: Vec<Tree>)
    ensures
        r@.len() == trees@.len(),
        forall|t: int| 0 <= t < trees@.len() ==> #[trigger] r@[t]@ == trees@[t]@,
{
    let mut out: Vec<Tree> = Vec::new();
    let n = trees.len();
    let mut i: usize = 0;
    while i < n
        invariant
            i <= n,
            n == trees@.len(),
            out@.len() == i,
            forall|t: int| 0 <= t < i ==> #[trigger] out@[t]@ == trees@[t]@,
        decreases n - i,
    {
        let copy = trees[i].duplicate();
        proof {
            assert(copy@ == trees@[i as int]@);
        }
        out.push(copy);
        i += 1;
    }
    out
}

/// The capability set shared by local and remote projects. Opening paths
/// and buffers suspends (on file or RPC work), so those operations live on
/// the concrete types, decomposed around their suspension points; starting
/// a search never suspends and is common.
pub trait Project {
    fn search_paths(&self, needle: &str, max_results: usize, include_ignored: bool) -> (
        PathSearch,
        SearchObserver,
    );
}

impl Project for LocalProject {
    fn search_paths(&self, needle: &str, max_results: usize, include_ignored: bool) -> (
        PathSearch,
        SearchObserver,
    ) {
        LocalProject::search_paths(self, needle, max_results, include_ignored)
    }
}

} // verus!
