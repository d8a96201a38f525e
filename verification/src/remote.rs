use vstd::prelude::*;
use crate::buffer::{share_buffer, slot_ids, SharedBuffer, TextBuffer};
use crate::paths::{str_chars, CrossPath};
use crate::project::{duplicate_trees, identity_repo_ids, trees_view, Error, FileSource, LocalProject, Project};
use crate::search::{search_wf, PathSearch};
use crate::status::{new_status_cell, PathSearchStatus, SearchObserver};
use crate::tree::{tree_wf, Tree};

verus! {

/// The state a client receives on attaching to a project service: for each
/// repository id, the id of the per-tree sub-service the client may take.
#[derive(Clone, Debug, PartialEq)]
pub struct RpcState {
    pub repos: Vec<(usize, usize)>,
}

/// A request a remote project sends to the project service.
#[derive(Clone, Debug, PartialEq)]
pub enum RpcRequest {
    OpenPath { repo_id: usize, relative_path: CrossPath },
    OpenBuffer { buffer_id: usize },
}

/// The project service's reply: on success, the id of the sub-service
/// published for the opened buffer.
#[derive(Debug, PartialEq)]
pub enum RpcResponse {
    OpenedBuffer(Result<usize, Error>),
}

/// A sub-service published on a server connection: one per tree at attach
/// time, and one per buffer a request opened.
pub enum ServicePayload {
    RepoService { repo_id: usize },
    BufferService { buffer: SharedBuffer },
}

/// The server side of one client connection: the sub-services published on
/// it, each under a fresh service id. Service id 0 identifies the project
/// service itself, so published sub-services count from 1.
pub struct ServerConnection {
    pub next_service_id: usize,
    pub services: Vec<(usize, ServicePayload)>,
}

/// The payload published under `service_id`, scanning the services in
/// publication order: the first pair carrying that id, if any.
pub open spec fn lookup_service(
    services: Seq<(usize, ServicePayload)>,
    service_id: int,
) -> Option<ServicePayload>
    decreases services.len(),
{
    if services.len() == 0 {
        None
    } else if services[0].0 == service_id {
        Some(services[0].1)
    } else {
        lookup_service(services.skip(1), service_id)
    }
}

impl ServerConnection {
    pub fn new() -> (r: Self)
        ensures
            r.next_service_id == 1,
            r.services@.len() == 0,
    {
        ServerConnection { next_service_id: 1, services: Vec::new() }
    }

    /// Publishes the per-tree sub-service for `repo_id` and returns its
    /// service id.
    pub fn add_repo_service(&mut self, repo_id: usize) -> (id: usize)
        requires
            old(self).next_service_id < usize::MAX,
        ensures
            id == old(self).next_service_id,
            final(self).next_service_id == old(self).next_service_id + 1,
            final(self).services@ == old(self).services@.push(
                (id, ServicePayload::RepoService { repo_id }),
            ),
    {
        let id = self.next_service_id;
        self.next_service_id = self.next_service_id + 1;
        self.services.push((id, ServicePayload::RepoService { repo_id }));
        id
    }

    /// Publishes a sub-service for an opened buffer and returns its service
    /// id.
    pub fn add_buffer_service(&mut self, buffer: SharedBuffer) -> (id: usize)
        requires
            old(self).next_service_id < usize::MAX,
        ensures
            id == old(self).next_service_id,
            final(self).next_service_id == old(self).next_service_id + 1,
            final(self).services@ == old(self).services@.push(
                (id, ServicePayload::BufferService { buffer }),
            ),
    {
        let id = self.next_service_id;
        self.next_service_id = self.next_service_id + 1;
        self.services.push((id, ServicePayload::BufferService { buffer }));
        id
    }

    /// Takes the buffer sub-service `service_id` and materializes the remote
    /// buffer it stands for: a replica holding the served buffer's contents
    /// at takeover time.
    pub fn replicate_buffer(&self, service_id: usize) -> (r: Option<SharedBuffer>)
        ensures
            r is Some <==> (lookup_service(self.services@, service_id as int) matches Some(
                ServicePayload::BufferService { .. },
            )),
    {
        let n = self.services.len();
        let mut i: usize = 0;
        proof {
            assert(self.services@.skip(0) =~= self.services@);
        }
        while i < n
            invariant
                i <= n,
                n == self.services@.len(),
                lookup_service(self.services@.skip(i as int), service_id as int)
                    == lookup_service(self.services@, service_id as int),
            decreases n - i,
        {
            proof {
                assert(self.services@.skip(i as int)[0] == self.services@[i as int]);
                assert(self.services@.skip(i as int).skip(1) =~= self.services@.skip(i + 1 as int));
            }
            if self.services[i].0 == service_id {
                match &self.services[i].1 {
                    ServicePayload::BufferService { buffer } => {
                        let mut replica = TextBuffer::new();
                        let text = buffer.text();
                        replica.edit(0, 0, text.as_str());
                        return Some(share_buffer(replica));
                    },
                    ServicePayload::RepoService { .. } => {
                        return None;
                    },
                }
            }
            i += 1;
        }
        proof {
            assert(self.services@.skip(n as int) =~= Seq::<(usize, ServicePayload)>::empty());
        }
        None
    }

    /// Takes the per-tree sub-service `service_id` and mirrors its tree: a
    /// copy of the underlying local tree's metadata, together with its
    /// repository id.
    pub fn replicate_tree(&self, project: &LocalProject, service_id: usize) -> (r: Option<
        (usize, Tree),
    >)
        ensures
            r is Some <==> (lookup_service(self.services@, service_id as int) matches Some(
                ServicePayload::RepoService { repo_id },
            ) && repo_id < project.trees@.len()),
            r matches Some(p) ==> (lookup_service(self.services@, service_id as int) == Some(
                ServicePayload::RepoService { repo_id: p.0 },
            ) && p.0 < project.trees@.len() && p.1@ == project.trees@[p.0 as int]@),
    {
        let n = self.services.len();
        let mut i: usize = 0;
        proof {
            assert(self.services@.skip(0) =~= self.services@);
        }
        while i < n
            invariant
                i <= n,
                n == self.services@.len(),
                lookup_service(self.services@.skip(i as int), service_id as int)
                    == lookup_service(self.services@, service_id as int),
            decreases n - i,
        {
            proof {
                assert(self.services@.skip(i as int)[0] == self.services@[i as int]);
                assert(self.services@.skip(i as int).skip(1) =~= self.services@.skip(i + 1 as int));
            }
            if self.services[i].0 == service_id {
                match &self.services[i].1 {
                    ServicePayload::RepoService { repo_id } => {
                        let rid = *repo_id;
                        if rid < project.trees.len() {
                            return Some((rid, project.trees[rid].duplicate()));
                        }
                        return None;
                    },
                    ServicePayload::BufferService { .. } => {
                        return None;
                    },
                }
            }
            i += 1;
        }
        proof {
            assert(self.services@.skip(n as int) =~= Seq::<(usize, ServicePayload)>::empty());
        }
        None
    }
}

/// The server-side adapter that exposes a local project over the
/// request/response substrate: it publishes the per-tree sub-services at
/// attach time and answers open requests, wrapping each opened buffer as a
/// sub-service on the same connection.
pub struct ProjectService {
    pub repo_services: Vec<(usize, usize)>,
}

impl ProjectService {
    pub fn new() -> (r: Self)
        ensures
            r.repo_services@.len() == 0,
    {
        ProjectService { repo_services: Vec::new() }
    }

    /// Publishes one repository sub-service per tree of the project and
    /// returns the `{repository id -> service id}` state map handed to the
    /// client.
    pub fn init(&mut self, project: &LocalProject, connection: &mut ServerConnection) -> (state:
        RpcState)
        requires
            old(connection).next_service_id + project.trees@.len() <= usize::MAX,
        ensures
            state.repos@.len() == project.trees@.len(),
            forall|q: int|
                0 <= q < state.repos@.len() ==> (#[trigger] state.repos@[q]).0 == q
                    && state.repos@[q].1 == old(connection).next_service_id + q,
            final(self).repo_services@ == state.repos@,
            final(connection).next_service_id == old(connection).next_service_id
                + project.trees@.len(),
            final(connection).services@.len() == old(connection).services@.len()
                + project.trees@.len(),
            forall|q: int|
                0 <= q < old(connection).services@.len() ==> final(connection).services@[q] == old(
                    connection,
                ).services@[q],
            forall|q: int|
                0 <= q < project.trees@.len()
                    ==> (#[trigger] final(connection).services@[old(connection).services@.len() + q]).0 == old(connection).next_service_id + q
                    && final(connection).services@[old(connection).services@.len() + q].1 == (ServicePayload::RepoService { repo_id: q as usize }),
    {
        let mut repos: Vec<(usize, usize)> = Vec::new();
        let n = project.trees.len();
        let mut i: usize = 0;
        while i < n
            invariant
                i <= n,
                n == project.trees@.len(),
                connection.next_service_id == old(connection).next_service_id + i,
                old(connection).next_service_id + n <= usize::MAX,
                repos@.len() == i,
                forall|q: int|
                    0 <= q < i ==> (#[trigger] repos@[q]).0 == q && repos@[q].1 == old(
                        connection,
                    ).next_service_id + q,
                connection.services@.len() == old(connection).services@.len() + i,
                forall|q: int|
                    0 <= q < old(connection).services@.len() ==> connection.services@[q] == old(
                        connection,
                    ).services@[q],
                forall|q: int|
                    0 <= q < i
                        ==> (#[trigger] connection.services@[old(connection).services@.len() + q]).0 == old(connection).next_service_id + q
                        && connection.services@[old(connection).services@.len() + q].1 == (ServicePayload::RepoService { repo_id: q as usize }),
            decreases n - i,
        {
            let handle = connection.add_repo_service(i);
            repos.push((i, handle));
            i += 1;
        }
        let state = RpcState { repos };
        self.repo_services = duplicate_pairs(&state.repos);
        state
    }

    /// No out-of-band updates exist in this protocol version: never ready.
    pub fn poll_update(&mut self) -> (r: Option<RpcState>)
        ensures
            r is None,
    {
        None
    }

    /// Dispatches one request against the local project: opens the path or
    /// buffer, publishes the resulting buffer as a sub-service, and answers
    /// `OpenedBuffer` with its service id, or with the open error. The
    /// dispatch itself never fails; transport failure is the connection's
    /// concern.
    pub fn request<F: FileSource>(
        &mut self,
        project: &mut LocalProject,
        provider: &F,
        request: RpcRequest,
        connection: &mut ServerConnection,
    ) -> (r: RpcResponse)
        requires
            old(project).next_buffer_id < usize::MAX,
            old(connection).next_service_id < usize::MAX,
        ensures
            final(project).trees == old(project).trees,
            (request matches RpcRequest::OpenPath { repo_id, .. } && repo_id >= old(
                project,
            ).trees@.len()) <==> r == RpcResponse::OpenedBuffer(
                Err::<usize, Error>(Error::TreeNotFound),
            ),
            (request matches RpcRequest::OpenBuffer { buffer_id } && !slot_ids(
                old(project).buffers.buffers@,
            ).contains(buffer_id as int)) ==> r == RpcResponse::OpenedBuffer(
                Err::<usize, Error>(Error::BufferNotFound),
            ),
            request matches RpcRequest::OpenPath { .. } ==> (r matches RpcResponse::OpenedBuffer(
                res,
            ) && (res is Ok || res == Err::<usize, Error>(Error::TreeNotFound) || res matches Err(
                Error::IoError(_),
            ))),
            request matches RpcRequest::OpenBuffer { .. } ==> (r matches RpcResponse::OpenedBuffer(
                res,
            ) && (res is Ok || res == Err::<usize, Error>(Error::BufferNotFound))),
            r matches RpcResponse::OpenedBuffer(res) && res matches Ok(id) ==> (id == old(
                connection,
            ).next_service_id && final(connection).next_service_id == old(
                connection,
            ).next_service_id + 1 && (exists|b: SharedBuffer|
                #![auto]
                final(connection).services@ == old(connection).services@.push(
                    (id, ServicePayload::BufferService { buffer: b }),
                ))),
            r matches RpcResponse::OpenedBuffer(res) && res is Err ==> (*final(connection)
                == *old(connection) && final(project).next_buffer_id == old(
                project,
            ).next_buffer_id),
    {
        match request {
            RpcRequest::OpenPath { repo_id, relative_path } => {
                match project.open_path(provider, repo_id, &relative_path) {
                    Ok(buffer) => {
                        let ghost b = buffer;
                        let id = connection.add_buffer_service(buffer);
                        proof {
                            assert(connection.services@ == old(connection).services@.push(
                                (id, ServicePayload::BufferService { buffer: b }),
                            ));
                        }
                        RpcResponse::OpenedBuffer(Ok(id))
                    },
                    Err(e) => {
                        proof {
                            assert(e matches Error::TreeNotFound || e matches Error::IoError(_));
                        }
                        RpcResponse::OpenedBuffer(Err(e))
                    },
                }
            },
            RpcRequest::OpenBuffer { buffer_id } => {
                match project.open_buffer(buffer_id) {
                    Ok(buffer) => {
                        let ghost b = buffer;
                        let id = connection.add_buffer_service(buffer);
                        proof {
                            assert(connection.services@ == old(connection).services@.push(
                                (id, ServicePayload::BufferService { buffer: b }),
                            ));
                        }
                        RpcResponse::OpenedBuffer(Ok(id))
                    },
                    Err(e) => {
                        proof {
                            assert(e matches Error::BufferNotFound);
                        }
                        RpcResponse::OpenedBuffer(Err(e))
                    },
                }
            },
        }
    }
}

/// A copy of a vector of id pairs.
fn duplicate_pairs(pairs: &Vec<(usize, usize)>) -> (r: Vec<(usize, usize)>)
    ensures
        r@ == pairs@,
{
    let mut out: Vec<(usize, usize)> = Vec::new();
    let n = pairs.len();
    let mut i: usize = 0;
    while i < n
        invariant
            i <= n,
            n == pairs@.len(),
            out@ =~= pairs@.take(i as int),
        decreases n - i,
    {
        out.push(pairs[i]);
        i += 1;
        proof {
            assert(pairs@.take(i as int) =~= pairs@.take(i - 1 as int).push(pairs@[i - 1]));
        }
    }
    proof {
        assert(pairs@.take(n as int) =~= pairs@);
    }
    out
}

/// A project that mirrors a local project over the request/response
/// substrate: it holds the mirrored tree metadata (one tree per repository
/// id, densely indexed) and runs searches against it locally; open
/// operations travel to the server as requests.
pub struct RemoteProject {
    pub trees: Vec<Tree>,
}

impl RemoteProject {
    /// Builds the mirror from the server's attach state and the mirrored
    /// trees, each already taken from its per-tree sub-service and paired
    /// with its repository id. The server publishes one sub-service per
    /// repository, densely numbered — which the caller must have honoured.
    pub fn new(state: &RpcState, repos: Vec<(usize, Tree)>) -> (r: Self)
        requires
            repos@.len() == state.repos@.len(),
            forall|q: int| 0 <= q < repos@.len() ==> (#[trigger] repos@[q]).0 == q,
        ensures
            r.trees@.len() == repos@.len(),
            forall|q: int| 0 <= q < repos@.len() ==> #[trigger] r.trees@[q]@ == repos@[q].1@,
    {
        let ghost orig = repos@;
        let mut remaining = repos;
        let mut trees: Vec<Tree> = Vec::new();
        let n = remaining.len();
        let mut i: usize = 0;
        proof {
            assert(remaining@ =~= orig.skip(0));
        }
        while i < n
            invariant
                i <= n,
                n == orig.len(),
                remaining@ =~= orig.skip(i as int),
                trees@.len() == i,
                forall|q: int| 0 <= q < i ==> #[trigger] trees@[q]@ == orig[q].1@,
            decreases n - i,
        {
            let pair = remaining.remove(0);
            proof {
                assert(orig.skip(i as int)[0] == orig[i as int]);
                assert(remaining@ =~= orig.skip(i as int).remove(0));
                assert(orig.skip(i as int).remove(0) =~= orig.skip(i + 1 as int));
            }
            trees.push(pair.1);
            i += 1;
        }
        RemoteProject { trees }
    }

    /// The request that opens `(repo_id, relative_path)` on the server.
    pub fn open_path_request(&self, repo_id: usize, relative_path: &CrossPath) -> (r: RpcRequest)
        ensures
            (r matches RpcRequest::OpenPath { repo_id: rid, relative_path: p } && rid == repo_id
                && p@ =~= relative_path@),
    {
        RpcRequest::OpenPath { repo_id, relative_path: relative_path.duplicate() }
    }

    /// The request that opens the buffer `buffer_id` on the server.
    pub fn open_buffer_request(&self, buffer_id: usize) -> (r: RpcRequest)
        ensures
            r == (RpcRequest::OpenBuffer { buffer_id }),
    {
        RpcRequest::OpenBuffer { buffer_id }
    }

    /// Interprets the server's reply to an open request: the service id of
    /// the published buffer sub-service on success, the application error
    /// unchanged on failure.
    pub fn take_opened_buffer(response: RpcResponse) -> (r: Result<usize, Error>)
        ensures
            (response matches RpcResponse::OpenedBuffer(res) && r == res),
    {
        match response {
            RpcResponse::OpenedBuffer(result) => result,
        }
    }

    /// A path search over the mirrored trees, identical in shape to the
    /// local version.
    pub fn search_paths(&self, needle: &str, max_results: usize, include_ignored: bool) -> (r: (
        PathSearch,
        SearchObserver,
    ))
        ensures
            r.0@.trees =~= trees_view(self.trees@),
            r.0@.needle == needle@,
            r.0@.max_results == max_results as int,
            r.0@.include_ignored == include_ignored,
            r.0@.repo_ids =~= Seq::new(self.trees@.len(), |t: int| t),
            (forall|t: int| 0 <= t < self.trees@.len() ==> tree_wf(#[trigger] self.trees@[t]@))
                && max_results >= 1 ==> search_wf(r.0@),
            r.1.initial_status() is Pending,
    {
        let observer = new_status_cell(PathSearchStatus::Pending);
        let updates = observer.weak_handle();
        let search = PathSearch {
            repo_ids: identity_repo_ids(self.trees.len()),
            trees: duplicate_trees(&self.trees),
            needle: str_chars(needle),
            max_results,
            include_ignored,
            updates,
        };
        (search, observer)
    }
}

impl Project for RemoteProject {
    fn search_paths(&self, needle: &str, max_results: usize, include_ignored: bool) -> (
        PathSearch,
        SearchObserver,
    ) {
        RemoteProject::search_paths(self, needle, max_results, include_ignored)
    }
}

} // verus!
