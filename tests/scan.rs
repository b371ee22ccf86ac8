use repo_manager::model::{GitStatus, RemoteInfo, RepoStatus, Repository, Timestamp};
use repo_manager::scan::{DirectoryFacts, LanguageProfile, RepositoryService, WalkEntry};

fn dir(path: &str, name: &str, root: bool) -> WalkEntry {
    WalkEntry { path: path.to_string(), name: Some(name.to_string()), is_dir: true, is_repo_root: root }
}

fn plain_facts(name: &str, code: usize) -> DirectoryFacts {
    DirectoryFacts {
        name: Some(name.to_string()),
        size_bytes: 2048,
        is_repo_root: false,
        profile: LanguageProfile { primary_language: None, total_lines: code, code_lines: code },
        git_status: None,
        remotes: None,
        last_activity: Some(Timestamp { secs: 1_700_000_000, nanos: 0 }),
        has_project_indicators: false,
    }
}

fn clean_status() -> GitStatus {
    GitStatus {
        is_clean: true,
        staged_files: vec![],
        unstaged_files: vec![],
        untracked_files: vec![],
        ahead: 0,
        behind: 0,
        current_branch: Some("main".to_string()),
        tracking_branch: None,
    }
}

fn repo_facts(name: &str, status: GitStatus) -> DirectoryFacts {
    DirectoryFacts {
        name: Some(name.to_string()),
        size_bytes: 4096,
        is_repo_root: true,
        profile: LanguageProfile { primary_language: Some("Rust".to_string()), total_lines: 120, code_lines: 100 },
        git_status: Some(status),
        remotes: Some(vec![RemoteInfo {
            name: "origin".to_string(),
            url: "https://example.com/a.git".to_string(),
            fetch_url: Some("https://example.com/a.git".to_string()),
            push_url: None,
        }]),
        last_activity: Some(Timestamp { secs: 1_700_000_000, nanos: 5 }),
        has_project_indicators: true,
    }
}

fn work_entries() -> Vec<WalkEntry> {
    vec![
        dir("/work", "work", false),
        dir("/work/a", "a", true),
        dir("/work/a/docs", "docs", false),
        dir("/work/a/inner", "inner", true),
        dir("/work/node_modules", "node_modules", false),
        dir("/work/node_modules/left-pad", "left-pad", false),
        dir("/work/b", "b", false),
        WalkEntry { path: "/work/notes.txt".to_string(), name: Some("notes.txt".to_string()), is_dir: false, is_repo_root: false },
    ]
}

fn scan_work(activity: i64) -> Vec<Repository> {
    let svc = RepositoryService::new();
    let plan = svc.plan_scan("/work", false, &work_entries());
    let mut observed = Vec::new();
    for path in plan {
        let mut facts = match path.as_str() {
            "/work" => plain_facts("work", 0),
            "/work/a" => repo_facts("a", clean_status()),
            "/work/b" => plain_facts("b", 3),
            "/work/node_modules/left-pad" => plain_facts("left-pad", 40),
            other => panic!("unexpected candidate {}", other),
        };
        facts.last_activity = Some(Timestamp { secs: activity, nanos: 0 });
        observed.push((path, facts));
    }
    svc.complete_scan(observed)
}

#[test]
fn candidates_skip_noise_and_nested_directories() {
    let svc = RepositoryService::new();
    let plan = svc.plan_scan("/work", false, &work_entries());
    assert_eq!(plan, vec!["/work".to_string(), "/work/a".to_string(), "/work/node_modules/left-pad".to_string(), "/work/b".to_string()]);
}

#[test]
fn root_repository_is_scanned_alone() {
    let svc = RepositoryService::new();
    let plan = svc.plan_scan("/work/a", true, &work_entries());
    assert_eq!(plan, vec!["/work/a".to_string()]);
}

#[test]
fn example_scan_of_work() {
    let svc = RepositoryService::new();
    let entries = vec![
        dir("/work", "work", false),
        dir("/work/a", "a", true),
        dir("/work/node_modules", "node_modules", false),
        dir("/work/b", "b", false),
    ];
    let plan = svc.plan_scan("/work", false, &entries);
    assert_eq!(plan, vec!["/work".to_string(), "/work/a".to_string(), "/work/b".to_string()]);
    let observed = vec![
        ("/work".to_string(), plain_facts("work", 0)),
        ("/work/a".to_string(), repo_facts("a", clean_status())),
        ("/work/b".to_string(), plain_facts("b", 3)),
    ];
    let result = svc.complete_scan(observed);
    assert_eq!(result.len(), 1);
    assert_eq!(result[0].path, "/work/a");
    assert_eq!(result[0].status, RepoStatus::Clean);
    assert_eq!(result[0].remotes, vec!["origin: https://example.com/a.git".to_string()]);
    assert!(result[0].is_git_repo);
}

#[test]
fn nested_repository_is_not_a_separate_entity() {
    let result = scan_work(1);
    for r in &result {
        assert!(!r.path.starts_with("/work/a/"));
    }
    let svc = RepositoryService::new();
    assert!(svc.is_inside_git_repo("/work/a/inner", "/work", &work_entries()));
    assert!(!svc.is_inside_git_repo("/work/a", "/work", &work_entries()));
    assert!(!svc.is_inside_git_repo("/work/ab", "/work", &work_entries()));
}

#[test]
fn rescanning_unchanged_tree_gives_same_entities() {
    let first = scan_work(100);
    let second = scan_work(200);
    let ids = |v: &Vec<Repository>| v.iter().map(|r| (r.path.clone(), r.status, r.is_git_repo)).collect::<Vec<_>>();
    assert_eq!(ids(&first), ids(&second));
    assert_eq!(ids(&first), vec![
        ("/work/a".to_string(), RepoStatus::Clean, true),
        ("/work/node_modules/left-pad".to_string(), RepoStatus::NoGit, false),
    ]);
}

#[test]
fn results_are_ordered_by_name_stably() {
    let svc = RepositoryService::new();
    let observed = vec![
        ("/x/zeta".to_string(), plain_facts("zeta", 50)),
        ("/x/one/app".to_string(), plain_facts("app", 50)),
        ("/x/Beta".to_string(), plain_facts("Beta", 50)),
        ("/x/two/app".to_string(), plain_facts("app", 50)),
    ];
    let result = svc.complete_scan(observed);
    let paths: Vec<&str> = result.iter().map(|r| r.path.as_str()).collect();
    assert_eq!(paths, vec!["/x/Beta", "/x/one/app", "/x/two/app", "/x/zeta"]);
}

#[test]
fn relevance_keeps_indicators_and_code() {
    let svc = RepositoryService::new();
    let mut marked = plain_facts("marked", 0);
    marked.has_project_indicators = true;
    let observed = vec![
        ("/p/marked".to_string(), marked),
        ("/p/ten".to_string(), plain_facts("ten", 10)),
        ("/p/nine".to_string(), plain_facts("nine", 9)),
    ];
    let result = svc.complete_scan(observed);
    let names: Vec<&str> = result.iter().map(|r| r.name.as_str()).collect();
    assert_eq!(names, vec!["marked", "ten"]);
}

#[test]
fn classification_of_dirty_and_untracked() {
    let svc = RepositoryService::new();
    let mut dirty = clean_status();
    dirty.is_clean = false;
    dirty.unstaged_files = vec!["src/lib.rs".to_string()];
    let r = svc.analyze_directory("/r/d".to_string(), repo_facts("d", dirty));
    assert_eq!(r.status, RepoStatus::Dirty);
    assert!(r.has_uncommitted_changes);
    assert_eq!(r.current_branch, Some("main".to_string()));

    let mut untracked = clean_status();
    untracked.is_clean = false;
    untracked.untracked_files = vec!["new.txt".to_string()];
    let r = svc.analyze_directory("/r/u".to_string(), repo_facts("u", untracked));
    assert_eq!(r.status, RepoStatus::Untracked);

    let mut unreadable = repo_facts("x", clean_status());
    unreadable.git_status = None;
    unreadable.remotes = None;
    let r = svc.analyze_directory("/r/x".to_string(), unreadable);
    assert_eq!(r.status, RepoStatus::Clean);
    assert!(!r.has_uncommitted_changes);
    assert!(r.remotes.is_empty());
}

#[test]
fn large_plain_directory_is_not_profiled() {
    let svc = RepositoryService::new();
    let mut big = plain_facts("media", 500);
    big.size_bytes = 10 * 1024 * 1024 + 1;
    let r = svc.analyze_directory("/m/media".to_string(), big);
    assert_eq!(r.primary_language, Some("Mixed".to_string()));
    assert_eq!(r.code_lines, 0);
    assert_eq!(r.status, RepoStatus::NoGit);

    let mut edge = plain_facts("edge", 500);
    edge.size_bytes = 10 * 1024 * 1024;
    let r = svc.analyze_directory("/m/edge".to_string(), edge);
    assert_eq!(r.code_lines, 500);

    assert!(svc.needs_language_profile(20 * 1024 * 1024, true));
    assert!(!svc.needs_language_profile(20 * 1024 * 1024, false));
}

#[test]
fn unnamed_directory_is_called_unknown() {
    let svc = RepositoryService::new();
    let mut f = plain_facts("x", 0);
    f.name = None;
    let r = svc.analyze_directory("/".to_string(), f);
    assert_eq!(r.name, "unknown");
    assert_eq!(r.size_bytes, 2048);
}

#[test]
fn example_scan_end_to_end() {
    let svc = RepositoryService::new();
    let entries = vec![
        dir("/work", "work", false),
        dir("/work/a", "a", true),
        dir("/work/node_modules", "node_modules", false),
        dir("/work/b", "b", false),
    ];
    let seen = std::cell::RefCell::new(Vec::new());
    let result = svc.scan_directory_with_progress("/work", false, &entries, |path: &String, count, total| {
        seen.borrow_mut().push((path.clone(), count, total));
        match path.as_str() {
            "/work" => plain_facts("work", 0),
            "/work/a" => repo_facts("a", clean_status()),
            "/work/b" => plain_facts("b", 3),
            other => panic!("unexpected candidate {}", other),
        }
    });
    assert_eq!(
        seen.into_inner(),
        vec![("/work".to_string(), 1, 3), ("/work/a".to_string(), 2, 3), ("/work/b".to_string(), 3, 3)]
    );
    assert_eq!(result.len(), 1);
    assert_eq!(result[0].path, "/work/a");
    assert_eq!(result[0].name, "a");
    assert_eq!(result[0].status, RepoStatus::Clean);
    assert!(!result[0].has_uncommitted_changes);
    assert_eq!(result[0].remotes, vec!["origin: https://example.com/a.git".to_string()]);
}
