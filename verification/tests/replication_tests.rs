use std::cell::{Cell, RefCell};
use std::collections::HashMap;
use xray_core::paths::CrossPath;
use xray_core::project::{FileKey, FileSource, LocalProject};
use xray_core::remote::{ProjectService, RemoteProject, RpcResponse, ServerConnection};
use xray_core::status::PathSearchStatus;
use xray_core::tree::Tree;

struct TestFileProvider {
    files: RefCell<HashMap<String, (usize, String)>>,
    next_id: Cell<usize>,
}

impl TestFileProvider {
    fn new() -> Self {
        TestFileProvider { files: RefCell::new(HashMap::new()), next_id: Cell::new(0) }
    }

    fn write_sync(&self, path: CrossPath, content: &str) {
        let key = path.to_string_lossy();
        let mut files = self.files.borrow_mut();
        if let Some(entry) = files.get_mut(&key) {
            entry.1 = content.to_string();
        } else {
            let id = self.next_id.get();
            self.next_id.set(id + 1);
            files.insert(key, (id, content.to_string()));
        }
    }
}

impl FileSource for TestFileProvider {
    fn open(&self, path: &CrossPath) -> Result<FileKey, String> {
        let key = path.to_string_lossy();
        match self.files.borrow().get(&key) {
            Some((id, _)) => Ok(FileKey { id: *id }),
            None => Err("file not found".to_string()),
        }
    }

    fn read(&self, file: &FileKey) -> Result<String, String> {
        for (id, content) in self.files.borrow().values() {
            if *id == file.id {
                return Ok(content.clone());
            }
        }
        Err("file not found".to_string())
    }
}

fn cross_path(s: &str) -> CrossPath {
    let mut p = CrossPath::new();
    for part in s.split('/') {
        if !part.is_empty() {
            p.push(part.to_string());
        }
    }
    p
}

fn build_project() -> LocalProject {
    let mut repo_1 = Tree::new(cross_path("/Users/someone/foo"));
    let subdir_a = repo_1.add_entry(0, "subdir-a".to_string(), true, false);
    repo_1.add_entry(subdir_a, "file-1".to_string(), false, false);
    let subdir_1 = repo_1.add_entry(subdir_a, "subdir-1".to_string(), true, false);
    repo_1.add_entry(subdir_1, "file-1".to_string(), false, false);
    repo_1.add_entry(subdir_1, "bar".to_string(), false, false);

    let mut repo_2 = Tree::new(cross_path("/Users/someone/bar"));
    let subdir_b = repo_2.add_entry(0, "subdir-b".to_string(), true, false);
    let subdir_2 = repo_2.add_entry(subdir_b, "subdir-2".to_string(), true, false);
    repo_2.add_entry(subdir_2, "file-3".to_string(), false, false);
    repo_2.add_entry(subdir_2, "foo".to_string(), false, false);

    LocalProject::new(vec![repo_1, repo_2])
}

fn summarize_results(results: &PathSearchStatus) -> Option<Vec<(usize, String, String, Vec<usize>)>> {
    match results {
        PathSearchStatus::Pending => None,
        PathSearchStatus::Ready(results) => Some(
            results
                .iter()
                .map(|result| {
                    (
                        result.repo_id,
                        result.relative_path.to_string_lossy(),
                        result.display_path.clone(),
                        result.positions.clone(),
                    )
                })
                .collect(),
        ),
    }
}

#[test]
fn test_replication() {
    let file_provider = TestFileProvider::new();
    let mut local_project = build_project();

    // Bring up the server side of the connection and mirror every tree on
    // the client side, taking each per-tree sub-service from the state map.
    let mut service = ProjectService::new();
    let mut connection = ServerConnection::new();
    let state = service.init(&local_project, &mut connection);
    let mut repos = Vec::new();
    for (repo_id, service_id) in state.repos.iter() {
        let (rid, tree) = connection.replicate_tree(&local_project, *service_id).unwrap();
        assert_eq!(rid, *repo_id);
        repos.push((rid, tree));
    }
    let remote_project = RemoteProject::new(&state, repos);

    let (mut local_search, local_observer) = local_project.search_paths("bar", 10, true);
    let (mut remote_search, remote_observer) = remote_project.search_paths("bar", 10, true);
    assert_eq!(local_search.poll(), Ok(()));
    assert_eq!(remote_search.poll(), Ok(()));
    assert_eq!(
        summarize_results(&remote_observer.get()),
        summarize_results(&local_observer.get())
    );

    let top = match remote_observer.get() {
        PathSearchStatus::Ready(results) => results.into_iter().next().unwrap(),
        PathSearchStatus::Pending => panic!("remote search did not publish"),
    };

    let absolute_path = local_project.resolve_path(top.repo_id, &top.relative_path).unwrap();
    file_provider.write_sync(absolute_path, "abc");

    // The remote open travels as a request, is dispatched by the service,
    // and the opened buffer comes back as a sub-service to take.
    let request = remote_project.open_path_request(top.repo_id, &top.relative_path);
    let response = service.request(&mut local_project, &file_provider, request, &mut connection);
    let service_id = RemoteProject::take_opened_buffer(response).unwrap();
    let remote_buffer = connection.replicate_buffer(service_id).unwrap();

    let local_buffer = local_project
        .open_path(&file_provider, top.repo_id, &top.relative_path)
        .unwrap();

    assert_eq!(remote_buffer.text(), local_buffer.text());
}

#[test]
fn test_service_state_and_updates() {
    let local_project = build_project();
    let mut service = ProjectService::new();
    let mut connection = ServerConnection::new();
    let state = service.init(&local_project, &mut connection);
    // One sub-service per tree, densely numbered from 1 (0 is the project
    // service itself), keyed by repository id.
    assert_eq!(state.repos, vec![(0, 1), (1, 2)]);
    assert!(service.poll_update().is_none());
}

#[test]
fn test_remote_open_unknown_repo() {
    let file_provider = TestFileProvider::new();
    let mut local_project = build_project();
    let mut service = ProjectService::new();
    let mut connection = ServerConnection::new();
    let _ = service.init(&local_project, &mut connection);

    let remote_project = RemoteProject::new(
        &xray_core::remote::RpcState { repos: vec![] },
        vec![],
    );
    let request = remote_project.open_path_request(7, &cross_path("some/file"));
    let response = service.request(&mut local_project, &file_provider, request, &mut connection);
    assert_eq!(
        response,
        RpcResponse::OpenedBuffer(Err(xray_core::project::Error::TreeNotFound))
    );
}
