use xray_core::paths::CrossPath;
use xray_core::project::LocalProject;
use xray_core::status::PathSearchStatus;
use xray_core::tree::Tree;

fn cross_path(s: &str) -> CrossPath {
    let mut p = CrossPath::new();
    for part in s.split('/') {
        if !part.is_empty() {
            p.push(part.to_string());
        }
    }
    p
}

fn summarize_results(results: &PathSearchStatus) -> Option<Vec<(usize, String, String, Vec<usize>)>> {
    match results {
        PathSearchStatus::Pending => None,
        PathSearchStatus::Ready(results) => Some(
            results
                .iter()
                .map(|result| {
                    (
                        result.repo_id,
                        result.relative_path.to_string_lossy(),
                        result.display_path.clone(),
                        result.positions.clone(),
                    )
                })
                .collect(),
        ),
    }
}

fn one_repo_project() -> LocalProject {
    let mut repo = Tree::new(cross_path("/Users/someone/repo"));
    let root_1 = repo.add_entry(0, "root-1".to_string(), true, false);
    repo.add_entry(root_1, "file-1".to_string(), false, false);
    let subdir_1 = repo.add_entry(root_1, "subdir-1".to_string(), true, false);
    repo.add_entry(subdir_1, "file-1".to_string(), false, false);
    repo.add_entry(subdir_1, "file-2".to_string(), false, false);
    let root_2 = repo.add_entry(0, "root-2".to_string(), true, false);
    let subdir_2 = repo.add_entry(root_2, "subdir-2".to_string(), true, false);
    repo.add_entry(subdir_2, "file-3".to_string(), false, false);
    repo.add_entry(subdir_2, "file-4".to_string(), false, false);
    LocalProject::new(vec![repo])
}

fn build_project() -> LocalProject {
    let mut repo_1 = Tree::new(cross_path("/Users/someone/foo"));
    let subdir_a = repo_1.add_entry(0, "subdir-a".to_string(), true, false);
    repo_1.add_entry(subdir_a, "file-1".to_string(), false, false);
    let subdir_1 = repo_1.add_entry(subdir_a, "subdir-1".to_string(), true, false);
    repo_1.add_entry(subdir_1, "file-1".to_string(), false, false);
    repo_1.add_entry(subdir_1, "bar".to_string(), false, false);

    let mut repo_2 = Tree::new(cross_path("/Users/someone/bar"));
    let subdir_b = repo_2.add_entry(0, "subdir-b".to_string(), true, false);
    let subdir_2 = repo_2.add_entry(subdir_b, "subdir-2".to_string(), true, false);
    repo_2.add_entry(subdir_2, "file-3".to_string(), false, false);
    repo_2.add_entry(subdir_2, "foo".to_string(), false, false);

    LocalProject::new(vec![repo_1, repo_2])
}

#[test]
fn test_search_one_repo() {
    let project = one_repo_project();
    let (mut search, observer) = project.search_paths("sub2", 10, true);

    assert_eq!(search.poll(), Ok(()));
    assert_eq!(
        summarize_results(&observer.get()),
        Some(vec![
            (
                0,
                "root-2/subdir-2/file-3".to_string(),
                "root-2/subdir-2/file-3".to_string(),
                vec![7, 8, 9, 14],
            ),
            (
                0,
                "root-2/subdir-2/file-4".to_string(),
                "root-2/subdir-2/file-4".to_string(),
                vec![7, 8, 9, 14],
            ),
            (
                0,
                "root-1/subdir-1/file-2".to_string(),
                "root-1/subdir-1/file-2".to_string(),
                vec![7, 8, 9, 21],
            ),
        ])
    );
}

#[test]
fn test_search_many_repos() {
    let project = build_project();

    let (mut search, observer) = project.search_paths("bar", 10, true);
    assert_eq!(search.poll(), Ok(()));
    assert_eq!(
        summarize_results(&observer.get()),
        Some(vec![
            (
                1,
                "subdir-b/subdir-2/foo".to_string(),
                "bar/subdir-b/subdir-2/foo".to_string(),
                vec![0, 1, 2],
            ),
            (
                0,
                "subdir-a/subdir-1/bar".to_string(),
                "foo/subdir-a/subdir-1/bar".to_string(),
                vec![22, 23, 24],
            ),
            (
                1,
                "subdir-b/subdir-2/file-3".to_string(),
                "bar/subdir-b/subdir-2/file-3".to_string(),
                vec![0, 1, 2],
            ),
            (
                0,
                "subdir-a/subdir-1/file-1".to_string(),
                "foo/subdir-a/subdir-1/file-1".to_string(),
                vec![6, 11, 18],
            ),
        ])
    );
}

#[test]
fn test_empty_needle_publishes_empty_ready() {
    let project = build_project();
    let (mut search, observer) = project.search_paths("", 10, true);
    assert!(matches!(observer.get(), PathSearchStatus::Pending));
    assert_eq!(search.poll(), Ok(()));
    assert_eq!(summarize_results(&observer.get()), Some(vec![]));
}

#[test]
fn test_search_scores_descend() {
    let project = build_project();
    let (mut search, observer) = project.search_paths("bar", 10, true);
    assert_eq!(search.poll(), Ok(()));
    match observer.get() {
        PathSearchStatus::Ready(results) => {
            assert_eq!(results.len(), 4);
            for pair in results.windows(2) {
                assert!(pair[0].score >= pair[1].score);
            }
        }
        PathSearchStatus::Pending => panic!("search did not publish"),
    }
}

#[test]
fn test_search_respects_max_results() {
    let project = one_repo_project();
    let (mut search, observer) = project.search_paths("sub2", 1, true);
    assert_eq!(search.poll(), Ok(()));
    assert_eq!(
        summarize_results(&observer.get()),
        Some(vec![(
            0,
            "root-2/subdir-2/file-3".to_string(),
            "root-2/subdir-2/file-3".to_string(),
            vec![7, 8, 9, 14],
        )])
    );
}

#[test]
fn test_ignored_entries() {
    // A matching directory with an ignored file inside: the ignored file is
    // surfaced only under `include_ignored`. A file reachable only through an
    // ignored directory is never surfaced, whatever the flag: the
    // find-matches phase skips ignored entries unconditionally, so nothing
    // below the ignored directory is ever marked.
    let mut repo = Tree::new(cross_path("/repo"));
    let sub = repo.add_entry(0, "sub".to_string(), true, false);
    let barxy = repo.add_entry(sub, "barxy".to_string(), true, false);
    repo.add_entry(barxy, "inner".to_string(), false, false);
    repo.add_entry(barxy, "ign".to_string(), false, true);
    let skipme = repo.add_entry(sub, "skipme".to_string(), true, true);
    repo.add_entry(skipme, "barqq".to_string(), false, false);
    let project = LocalProject::new(vec![repo]);

    let (mut search, observer) = project.search_paths("bar", 10, true);
    assert_eq!(search.poll(), Ok(()));
    let with_ignored: Vec<String> = match summarize_results(&observer.get()) {
        Some(rows) => rows.into_iter().map(|row| row.1).collect(),
        None => panic!("search did not publish"),
    };
    assert_eq!(
        with_ignored,
        vec!["sub/barxy/ign".to_string(), "sub/barxy/inner".to_string()]
    );

    let (mut search, observer) = project.search_paths("bar", 10, false);
    assert_eq!(search.poll(), Ok(()));
    let without_ignored: Vec<String> = match summarize_results(&observer.get()) {
        Some(rows) => rows.into_iter().map(|row| row.1).collect(),
        None => panic!("search did not publish"),
    };
    assert_eq!(without_ignored, vec!["sub/barxy/inner".to_string()]);
}

#[test]
fn test_cancellation_on_dropped_observer() {
    // A search over at least 20,000 entries whose observer is dropped before
    // the first poll: the periodic liveness check reports cancellation and
    // nothing is ever published.
    let mut repo = Tree::new(cross_path("/repo"));
    let dir = repo.add_entry(0, "entries".to_string(), true, false);
    for i in 0..20000 {
        repo.add_entry(dir, format!("entry-{}", i), false, false);
    }
    let project = LocalProject::new(vec![repo]);
    let (mut search, observer) = project.search_paths("entry", 10, true);
    drop(observer);
    assert_eq!(search.poll(), Err(()));
}
