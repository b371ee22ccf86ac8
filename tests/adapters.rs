use repo_manager::filesystem::FilesystemAdapter;
use repo_manager::filter::IgnoreAdapter;
use repo_manager::git::{BranchFacts, GitAdapter, HeadError, HeadErrorKind, StatusEntry};
use repo_manager::languages::{LanguageStat, TokeiAdapter};
use repo_manager::model::Timestamp;

fn stat(language: &str, lines: usize, code: usize) -> LanguageStat {
    LanguageStat { language: language.to_string(), lines, code, comments: 1 }
}

#[test]
fn skip_hidden_scoped_and_noise_names() {
    let a = IgnoreAdapter::new();
    assert!(a.should_skip_directory(".git"));
    assert!(a.should_skip_directory("@types"));
    assert!(a.should_skip_directory("Node_Modules"));
    assert!(a.should_skip_directory("System Volume Information"));
    assert!(a.should_skip_directory("$Recycle.Bin"));
    assert!(a.should_skip_directory("TESTS"));
    assert!(!a.should_skip_directory("project"));
    assert!(!a.should_skip_directory("src2"));
    assert!(!a.should_skip_directory(""));
    assert!(a.is_noise_name("thumbs.db"));
    assert!(!a.is_noise_name("Thumbs.db"));
}

#[test]
fn project_indicators() {
    let fs = FilesystemAdapter::new();
    assert!(fs.has_project_indicators(&vec!["README.md".to_string()]));
    assert!(fs.has_project_indicators(&vec!["x".to_string(), "Dockerfile".to_string()]));
    assert!(!fs.has_project_indicators(&vec!["Gemfile".to_string(), "readme.md".to_string()]));
    assert_eq!(fs.project_indicator_files().len(), 8);
}

#[test]
fn sizes_in_decimal_units() {
    let fs = FilesystemAdapter::new();
    assert_eq!(fs.format_size(1_000_000), "1 MB");
    assert_eq!(fs.format_size(1_000_000_000), "1 GB");
    assert_eq!(fs.total_size(&vec![1, 2, 3]), 6);
    assert_eq!(fs.total_size(&vec![u64::MAX, 5]), u64::MAX);
    assert_eq!(fs.total_size(&vec![]), 0);
}

#[test]
fn language_names() {
    let t = TokeiAdapter::new();
    assert_eq!(t.format_language_name("Cpp"), "C++");
    assert_eq!(t.format_language_name("CSharp"), "C#");
    assert_eq!(t.format_language_name("Sh"), "Shell");
    assert_eq!(t.format_language_name("Rust"), "Rust");
    assert_eq!(t.format_language_name("Haskell"), "Haskell");
}

#[test]
fn manifest_decides_language_first() {
    let t = TokeiAdapter::new();
    let present = vec!["pom.xml".to_string(), "Cargo.toml".to_string()];
    let p = t.analyze_languages(&present, Some(50_000_000), Some(20), || panic!("lines are not counted"));
    assert_eq!(p.primary_language, Some("Rust".to_string()));
    assert_eq!((p.total_lines, p.code_lines), (0, 0));
    assert_eq!(t.manifest_language(&vec!["Gemfile".to_string()]), Some("Ruby".to_string()));
    assert_eq!(t.manifest_language(&vec![]), None);
    assert_eq!(t.manifest_files().len(), 6);
}

#[test]
fn large_or_crowded_directories_are_mixed() {
    let t = TokeiAdapter::new();
    let p = t.analyze_languages(&vec![], Some(5_000_001), Some(0), || panic!("lines are not counted"));
    assert_eq!(p.primary_language, Some("Mixed".to_string()));
    let p = t.analyze_languages(&vec![], Some(5_000_000), Some(8), || panic!("lines are not counted"));
    assert_eq!(p.primary_language, Some("Mixed".to_string()));
    let p = t.analyze_languages(&vec![], None, Some(7), || vec![stat("Python", 30, 20)]);
    assert_eq!(p.primary_language, Some("Python".to_string()));
    assert_eq!((p.total_lines, p.code_lines), (30, 20));
}

#[test]
fn summary_takes_last_largest_and_caps_lines() {
    let t = TokeiAdapter::new();
    let p = t.summarize_languages(&vec![stat("Cpp", 250_000, 150_000), stat("Json", 10, 5), stat("Toml", 300_000, 150_000)]);
    assert_eq!(p.primary_language, Some("TOML".to_string()));
    assert_eq!(p.total_lines, 200_010);
    assert_eq!(p.code_lines, 200_005);
    let empty = t.summarize_languages(&vec![]);
    assert_eq!(empty.primary_language, None);
    assert_eq!((empty.total_lines, empty.code_lines), (0, 0));
}

#[test]
fn sample_size_counts_first_entries() {
    let t = TokeiAdapter::new();
    assert_eq!(t.estimate_directory_size(&vec![1; 150]), 101);
    assert_eq!(t.estimate_directory_size(&vec![2; 3]), 6);
    assert_eq!(t.estimate_directory_size(&vec![u64::MAX, 1]), u64::MAX);
}

#[test]
fn project_by_code_lines_and_breakdown() {
    let t = TokeiAdapter::new();
    let stats = vec![stat("Html", 40, 30), stat("Css", 10, 5)];
    assert!(t.looks_like_project(&stats, 35));
    assert!(!t.looks_like_project(&stats, 36));
    let b = t.get_language_breakdown(&stats);
    assert_eq!(b, vec![("HTML".to_string(), 40, 30, 1), ("CSS".to_string(), 10, 5, 1)]);
}

#[test]
fn status_flags_are_sorted_out() {
    let g = GitAdapter::new();
    let entries = vec![
        StatusEntry { path: Some("a".to_string()), flags: 1 },
        StatusEntry { path: Some("b".to_string()), flags: 256 },
        StatusEntry { path: Some("c".to_string()), flags: 128 },
        StatusEntry { path: None, flags: 2 | 512 },
        StatusEntry { path: Some("ignored".to_string()), flags: 1 << 14 },
    ];
    let s = g.status_from_entries(&entries, Some("main".to_string()), Some("origin/main".to_string()));
    assert_eq!(s.staged_files, vec!["a".to_string(), "".to_string()]);
    assert_eq!(s.unstaged_files, vec!["b".to_string(), "".to_string()]);
    assert_eq!(s.untracked_files, vec!["c".to_string()]);
    assert!(!s.is_clean);
    assert_eq!((s.ahead, s.behind), (0, 0));
    let clean = g.status_from_entries(&vec![StatusEntry { path: Some("x".to_string()), flags: 1 << 14 }], None, None);
    assert!(clean.is_clean);
}

#[test]
fn remotes_and_branches() {
    let g = GitAdapter::new();
    let r = g.remote_info("origin".to_string(), None, Some("git@host:x".to_string()));
    assert_eq!(r.url, "");
    assert_eq!(r.fetch_url, None);
    assert_eq!(r.push_url, Some("git@host:x".to_string()));
    let t = Some(Timestamp { secs: 10, nanos: 0 });
    let local = vec![
        BranchFacts { name: Some("main".to_string()), upstream: Some("origin/main".to_string()), last_commit: t },
        BranchFacts { name: None, upstream: None, last_commit: None },
        BranchFacts { name: Some("dev".to_string()), upstream: None, last_commit: None },
    ];
    let remote = vec![BranchFacts { name: Some("origin/main".to_string()), upstream: Some("x".to_string()), last_commit: t }];
    let b = g.branch_list(&Some("main".to_string()), local, remote);
    assert_eq!(b.len(), 3);
    assert!(b[0].is_current && !b[0].is_remote);
    assert_eq!(b[0].upstream, Some("origin/main".to_string()));
    assert!(!b[1].is_current);
    assert!(b[2].is_remote && !b[2].is_current);
    assert_eq!(b[2].upstream, None);
    assert_eq!(b[2].last_commit, t);
}

#[test]
fn head_errors() {
    let g = GitAdapter::new();
    let err = |kind| Err(HeadError { kind, message: "m".to_string() });
    assert_eq!(g.current_branch_from_head(err(HeadErrorKind::UnbornBranch)).ok(), Some(None));
    assert_eq!(g.current_branch_from_head(err(HeadErrorKind::NotFound)).ok(), Some(None));
    assert!(g.current_branch_from_head(err(HeadErrorKind::Other)).is_err());
    assert_eq!(g.current_branch_from_head(Ok(Some("x".to_string()))).ok(), Some(Some("x".to_string())));
}
