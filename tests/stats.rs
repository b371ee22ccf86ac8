use repo_manager::model::{RepoStatus, Repository, Timestamp};
use repo_manager::scan::RepositoryService;

fn entry(name: &str, git: bool, size: u64, activity: Option<i64>, changes: bool, remotes: usize) -> Repository {
    Repository {
        name: name.to_string(),
        path: format!("/s/{}", name),
        is_git_repo: git,
        has_uncommitted_changes: changes,
        current_branch: None,
        remotes: (0..remotes).map(|i| format!("r{}: url", i)).collect(),
        last_commit_date: None,
        last_activity: activity.map(|secs| Timestamp { secs, nanos: 0 }),
        status: if !git { RepoStatus::NoGit } else if changes { RepoStatus::Dirty } else { RepoStatus::Clean },
        size_bytes: size,
        commit_count: None,
        primary_language: None,
        total_lines: 0,
        code_lines: 0,
    }
}

#[test]
fn directory_stats_counts_and_lists() {
    let svc = RepositoryService::new();
    let repos = vec![
        entry("a", true, 50, Some(300), false, 1),
        entry("b", true, 70, None, true, 1),
        entry("c", false, 50, Some(100), false, 0),
        entry("d", true, 10, Some(300), false, 0),
    ];
    let s = svc.get_directory_stats(&repos);
    assert_eq!(s.total_directories, 4);
    assert_eq!(s.git_repositories, 3);
    assert_eq!(s.non_git_directories, 1);
    assert_eq!(s.repositories_with_changes, 1);
    assert_eq!(s.repositories_with_remotes, 2);
    assert_eq!(s.total_size_bytes, 180);
    let names = |v: &Vec<Repository>| v.iter().map(|r| r.name.clone()).collect::<Vec<_>>();
    assert_eq!(names(&s.largest_repos), vec!["b", "a", "c", "d"]);
    assert_eq!(names(&s.most_active_repos), vec!["a", "d", "c", "b"]);
    assert_eq!(names(&s.repos_needing_attention), vec!["b", "d"]);
}

#[test]
fn directory_stats_lists_are_capped() {
    let svc = RepositoryService::new();
    let repos: Vec<Repository> = (0..25).map(|i| entry(&format!("n{:02}", i), true, i as u64, Some(i), false, 0)).collect();
    let s = svc.get_directory_stats(&repos);
    assert_eq!(s.largest_repos.len(), 10);
    assert_eq!(s.largest_repos[0].name, "n24");
    assert_eq!(s.most_active_repos[9].name, "n15");
    assert_eq!(s.repos_needing_attention.len(), 20);
    assert_eq!(s.repos_needing_attention[19].name, "n19");
    let empty = svc.get_directory_stats(&vec![]);
    assert_eq!(empty.total_directories, 0);
    assert!(empty.largest_repos.is_empty());
}
