use std::cell::{Cell, RefCell};
use std::collections::HashMap;
use xray_core::buffer::buffer_ptr_eq;
use xray_core::paths::CrossPath;
use xray_core::project::{Error, FileKey, FileSource, LocalProject};
use xray_core::tree::Tree;

struct TestFileProvider {
    files: RefCell<HashMap<String, (usize, String)>>,
    next_id: Cell<usize>,
}

impl TestFileProvider {
    fn new() -> Self {
        TestFileProvider { files: RefCell::new(HashMap::new()), next_id: Cell::new(0) }
    }

    fn write_sync(&self, path: CrossPath, content: &str) {
        let key = path.to_string_lossy();
        let mut files = self.files.borrow_mut();
        if let Some(entry) = files.get_mut(&key) {
            entry.1 = content.to_string();
        } else {
            let id = self.next_id.get();
            self.next_id.set(id + 1);
            files.insert(key, (id, content.to_string()));
        }
    }
}

impl FileSource for TestFileProvider {
    fn open(&self, path: &CrossPath) -> Result<FileKey, String> {
        let key = path.to_string_lossy();
        match self.files.borrow().get(&key) {
            Some((id, _)) => Ok(FileKey { id: *id }),
            None => Err("file not found".to_string()),
        }
    }

    fn read(&self, file: &FileKey) -> Result<String, String> {
        for (id, content) in self.files.borrow().values() {
            if *id == file.id {
                return Ok(content.clone());
            }
        }
        Err("file not found".to_string())
    }
}

fn cross_path(s: &str) -> CrossPath {
    let mut p = CrossPath::new();
    for part in s.split('/') {
        if !part.is_empty() {
            p.push(part.to_string());
        }
    }
    p
}

fn build_project() -> LocalProject {
    let mut repo_1 = Tree::new(cross_path("/Users/someone/foo"));
    let subdir_a = repo_1.add_entry(0, "subdir-a".to_string(), true, false);
    repo_1.add_entry(subdir_a, "file-1".to_string(), false, false);
    let subdir_1 = repo_1.add_entry(subdir_a, "subdir-1".to_string(), true, false);
    repo_1.add_entry(subdir_1, "file-1".to_string(), false, false);
    repo_1.add_entry(subdir_1, "bar".to_string(), false, false);

    let mut repo_2 = Tree::new(cross_path("/Users/someone/bar"));
    let subdir_b = repo_2.add_entry(0, "subdir-b".to_string(), true, false);
    let subdir_2 = repo_2.add_entry(subdir_b, "subdir-2".to_string(), true, false);
    repo_2.add_entry(subdir_2, "file-3".to_string(), false, false);
    repo_2.add_entry(subdir_2, "foo".to_string(), false, false);

    LocalProject::new(vec![repo_1, repo_2])
}

#[test]
fn test_open_same_path_concurrently() {
    let file_provider = TestFileProvider::new();
    let mut project = build_project();

    let repo_id = 0;
    let relative_path = cross_path("subdir-a/subdir-1/bar");
    file_provider.write_sync(project.resolve_path(repo_id, &relative_path).unwrap(), "abc");

    let buffer_1 = project.open_path(&file_provider, repo_id, &relative_path).unwrap();
    let buffer_2 = project.open_path(&file_provider, repo_id, &relative_path).unwrap();
    assert!(buffer_ptr_eq(&buffer_1, &buffer_2));
}

#[test]
fn test_open_interleaved_installs_once() {
    // Two opens of the same path, interleaved around their suspension
    // points: both read content, and the re-check before install makes the
    // second open adopt the first one's buffer.
    let file_provider = TestFileProvider::new();
    let mut project = build_project();

    let relative_path = cross_path("subdir-a/subdir-1/bar");
    let absolute = project.resolve_path(0, &relative_path).unwrap();
    file_provider.write_sync(project.resolve_path(0, &relative_path).unwrap(), "abc");

    let file_1 = file_provider.open(&absolute).unwrap();
    let file_2 = file_provider.open(&absolute).unwrap();
    assert!(project.buffers.find_by_file_id(file_1.id).is_none());
    let content_1 = file_provider.read(&file_1).unwrap();
    assert!(project.buffers.find_by_file_id(file_2.id).is_none());
    let content_2 = file_provider.read(&file_2).unwrap();

    let buffer_1 = project.complete_open(file_1.id, &content_1);
    let buffer_2 = project.complete_open(file_2.id, &content_2);
    assert!(buffer_ptr_eq(&buffer_1, &buffer_2));
    assert_eq!(buffer_2.text(), "abc");
}

#[test]
fn test_drop_buffer_rc() {
    let file_provider = TestFileProvider::new();
    let mut project = build_project();

    let repo_id = 0;
    let relative_path = cross_path("subdir-a/subdir-1/bar");
    let absolute_path = project.resolve_path(repo_id, &relative_path).unwrap();
    file_provider.write_sync(absolute_path, "disk");

    let buffer_1 = project.open_path(&file_provider, repo_id, &relative_path).unwrap();
    assert!(buffer_1.edit(0, 4, "memory"));
    let buffer_2 = project.open_path(&file_provider, repo_id, &relative_path).unwrap();
    assert_eq!(buffer_2.text(), "memory");

    // Dropping only one of the two strong references does not release the buffer.
    drop(buffer_2);
    let buffer_3 = project.open_path(&file_provider, repo_id, &relative_path).unwrap();
    assert_eq!(buffer_3.text(), "memory");

    // Dropping all strong references causes the buffer to be released.
    drop(buffer_1);
    drop(buffer_3);
    let buffer_4 = project.open_path(&file_provider, repo_id, &relative_path).unwrap();
    assert_eq!(buffer_4.text(), "disk");
}

#[test]
fn test_unknown_repo_is_tree_not_found() {
    let file_provider = TestFileProvider::new();
    let mut project = build_project();
    let relative_path = cross_path("subdir-a/file-1");
    let result = project.open_path(&file_provider, 99, &relative_path);
    assert_eq!(result.err().unwrap(), Error::TreeNotFound);
}

#[test]
fn test_missing_file_is_io_error() {
    let file_provider = TestFileProvider::new();
    let mut project = build_project();
    let relative_path = cross_path("subdir-a/no-such-file");
    let result = project.open_path(&file_provider, 0, &relative_path);
    assert_eq!(result.err().unwrap(), Error::IoError("file not found".to_string()));
}

#[test]
fn test_open_buffer_by_id() {
    let file_provider = TestFileProvider::new();
    let mut project = build_project();

    let relative_path = cross_path("subdir-a/subdir-1/bar");
    file_provider.write_sync(project.resolve_path(0, &relative_path).unwrap(), "abc");

    let opened = project.open_path(&file_provider, 0, &relative_path).unwrap();
    // The first buffer of a fresh project gets buffer id 0.
    let by_id = project.open_buffer(0).unwrap();
    assert!(buffer_ptr_eq(&opened, &by_id));
    assert_eq!(project.open_buffer(42).err().unwrap(), Error::BufferNotFound);
}

#[test]
fn test_resolve_path_rendering() {
    let project = build_project();
    let relative_path = cross_path("subdir-a/subdir-1/bar");
    let absolute = project.resolve_path(0, &relative_path).unwrap();
    assert_eq!(absolute.to_string_lossy(), "Users/someone/foo/subdir-a/subdir-1/bar");
    assert!(project.resolve_path(2, &relative_path).is_none());
}
