use repo_manager::cache::{CacheService, CachedRepository, merge_repositories, union_scanned_paths, CACHE_VERSION};
use repo_manager::checksums::Checksums;
use repo_manager::clock::{timestamp_from_clock, ClockReading};
use repo_manager::history::HistoryFile;
use repo_manager::model::{RepoStatus, Repository, Timestamp};
use repo_manager::settings::{CacheSettings, FilterPreferences};

fn repo(path: &str, git: bool, size: u64) -> Repository {
    Repository {
        name: path.rsplit('/').next().unwrap().to_string(),
        path: path.to_string(),
        is_git_repo: git,
        has_uncommitted_changes: false,
        current_branch: None,
        remotes: vec![],
        last_commit_date: None,
        last_activity: None,
        status: if git { RepoStatus::Clean } else { RepoStatus::NoGit },
        size_bytes: size,
        commit_count: None,
        primary_language: None,
        total_lines: 0,
        code_lines: 0,
    }
}

fn sums(pairs: &[(&str, &str)]) -> Checksums {
    let mut c = Checksums::new();
    for (p, t) in pairs {
        c.insert(p.to_string(), t.to_string());
    }
    c
}

const NOW: Timestamp = Timestamp { secs: 1_700_000_000, nanos: 0 };

#[test]
fn checksum_insert_replaces() {
    let mut c = sums(&[("/a", "1"), ("/b", "2")]);
    c.insert("/a".to_string(), "3".to_string());
    assert_eq!(c.len(), 2);
    assert_eq!(c.get(&"/a".to_string()), Some("3".to_string()));
    assert_eq!(c.get(&"/c".to_string()), None);
    assert_eq!(c.entry(1), (&"/b".to_string(), &"2".to_string()));
}

#[test]
fn changed_checksum_is_stale() {
    let svc = CacheService::new();
    let data = svc.create_cache_data_at(vec![repo("/work/a", true, 1)], vec!["/work".to_string()], sums(&[("/work/a", "sha1")]), NOW);
    let stale = svc.find_stale_repositories(&data, &sums(&[("/work/a", "sha2")]));
    assert_eq!(stale, vec!["/work/a".to_string()]);
}

#[test]
fn staleness_covers_every_case() {
    let svc = CacheService::new();
    let data = svc.create_cache_data_at(
        vec![repo("/same", true, 1), repo("/changed", true, 1), repo("/untokened", false, 1), repo("/gone", true, 1)],
        vec![],
        sums(&[("/same", "s"), ("/changed", "old"), ("/gone", "g")]),
        NOW,
    );
    let fresh = sums(&[("/same", "s"), ("/changed", "new"), ("/untokened", "u"), ("/new", "n")]);
    let mut stale = svc.find_stale_repositories(&data, &fresh);
    stale.sort();
    assert_eq!(stale, vec!["/changed".to_string(), "/gone".to_string(), "/new".to_string(), "/untokened".to_string()]);
}

#[test]
fn merge_keeps_existing_entry() {
    let mut existing_a = repo("/a", true, 1);
    existing_a.code_lines = 7;
    let merged = merge_repositories(vec![existing_a, repo("/b", false, 2)], vec![repo("/a", true, 99), repo("/c", false, 3), repo("/c", true, 4)]);
    let paths: Vec<&str> = merged.iter().map(|r| r.path.as_str()).collect();
    assert_eq!(paths, vec!["/a", "/b", "/c"]);
    assert_eq!(merged[0].code_lines, 7);
    assert_eq!(merged[0].size_bytes, 1);
    assert_eq!(merged[2].size_bytes, 3);
}

#[test]
fn scanned_roots_are_united() {
    let u = union_scanned_paths(vec!["/new".to_string()], vec!["/old".to_string(), "/new".to_string(), "/old".to_string()]);
    assert_eq!(u, vec!["/new".to_string(), "/old".to_string()]);
}

#[test]
fn contents_in_add_and_replace_mode() {
    let svc = CacheService::new();
    let earlier = svc.create_cache_data_at(vec![repo("/w/a", true, 1)], vec!["/w".to_string()], Checksums::new(), NOW);
    let (repos, roots) = svc.contents_to_save(true, Some(earlier), vec![repo("/w/a", true, 5), repo("/v/b", false, 2)], "/v".to_string());
    assert_eq!(repos.len(), 2);
    assert_eq!(repos[0].size_bytes, 1);
    assert_eq!(repos[1].path, "/v/b");
    assert_eq!(roots, vec!["/v".to_string(), "/w".to_string()]);

    let earlier = svc.create_cache_data_at(vec![repo("/w/a", true, 1)], vec!["/w".to_string()], Checksums::new(), NOW);
    let (repos, roots) = svc.contents_to_save(false, Some(earlier), vec![repo("/v/b", false, 2)], "/v".to_string());
    assert_eq!(repos.len(), 1);
    assert_eq!(roots, vec!["/v".to_string()]);
}

#[test]
fn record_totals_and_entries() {
    let svc = CacheService::new();
    let data = svc.create_cache_data_at(
        vec![repo("/a", true, 10), repo("/b", false, 20), repo("/a", true, 30)],
        vec!["/".to_string()],
        sums(&[("/a", "t")]),
        NOW,
    );
    assert_eq!(data.version, CACHE_VERSION);
    assert_eq!(data.total_repos, 3);
    assert_eq!(data.total_git_repos, 2);
    assert_eq!(data.total_size_bytes, 60);
    assert_eq!(data.repositories.len(), 2);
    let a = data.repositories.iter().find(|c| c.repository.path == "/a").unwrap();
    assert_eq!(a.repository.size_bytes, 30);
    assert_eq!(a.git_head_sha, Some("t".to_string()));
    assert_eq!(a.cached_at, NOW);
    let b = data.repositories.iter().find(|c| c.repository.path == "/b").unwrap();
    assert_eq!(b.git_head_sha, None);
    let extracted = svc.extract_repositories(&data);
    assert_eq!(extracted.len(), 2);
}

#[test]
fn record_made_now_keeps_its_arguments() {
    let svc = CacheService::new();
    let data = svc.create_cache_data(vec![repo("/a", true, 7), repo("/b", false, 8)], vec!["/".to_string()], sums(&[("/a", "t"), ("/z", "u")]));
    assert_eq!(data.checksums.len(), 2);
    assert_eq!(data.checksums.get(&"/z".to_string()), Some("u".to_string()));
    assert_eq!(data.total_size_bytes, 15);
    let a = data.repositories.iter().find(|c| c.repository.path == "/a").unwrap();
    assert_eq!(a.git_head_sha, Some("t".to_string()));
    assert_eq!(a.cached_at, data.last_scan);
    let empty = repo_manager::cache::CacheData::default();
    assert_eq!(empty.version, CACHE_VERSION);
    assert_eq!(empty.checksums.len(), 0);
    assert!(empty.repositories.is_empty() && empty.scanned_paths.is_empty());
}

#[test]
fn clock_readings_become_timestamps() {
    assert_eq!(timestamp_from_clock(ClockReading { after_epoch: true, secs: 5, nanos: 7 }), Timestamp { secs: 5, nanos: 7 });
    assert_eq!(timestamp_from_clock(ClockReading { after_epoch: false, secs: 5, nanos: 0 }), Timestamp { secs: -5, nanos: 0 });
    assert_eq!(
        timestamp_from_clock(ClockReading { after_epoch: false, secs: 5, nanos: 250_000_000 }),
        Timestamp { secs: -6, nanos: 750_000_000 }
    );
    assert_eq!(timestamp_from_clock(ClockReading { after_epoch: true, secs: u64::MAX, nanos: 0 }).secs, i64::MAX);
    let now = repo_manager::clock::current_time();
    assert!(now.secs > 1_700_000_000 && now.nanos < 1_000_000_000);
}

#[test]
fn saved_record_loads_back() {
    let svc = CacheService::new();
    let data = svc.create_cache_data_at(vec![repo("/a", true, 10)], vec!["/".to_string()], Checksums::new(), NOW);
    let loaded = svc.check_loaded(Some(data)).expect("current version is accepted");
    assert_eq!(loaded.repositories.len(), 1);
    assert_eq!(loaded.last_scan, NOW);
    let mut old = svc.create_cache_data_at(vec![], vec![], Checksums::new(), NOW);
    old.version = "0.9.0".to_string();
    assert!(svc.check_loaded(Some(old)).is_none());
    assert!(svc.check_loaded(None).is_none());
}

#[test]
fn age_in_whole_hours() {
    let entry = CachedRepository::new_at(repo("/a", true, 1), None, NOW);
    let later = |s: i64, n: u32| Timestamp { secs: NOW.secs + s, nanos: n };
    assert!(!entry.is_stale_at(later(24 * 3600, 0), 24));
    assert!(!entry.is_stale_at(later(25 * 3600 - 1, 999_999_999), 24));
    assert!(entry.is_stale_at(later(25 * 3600, 0), 24));
    assert!(!entry.is_stale_at(later(-100 * 3600, 0), 0));
    assert!(entry.is_stale(24));
}

#[test]
fn history_keeps_ten_newest() {
    let svc = CacheService::new();
    let mut files = Vec::new();
    for i in 0..12i64 {
        files.push(HistoryFile { name: format!("repositories_{:02}.json", i), modified: Timestamp { secs: 1000 + (i * 7) % 12, nanos: 0 } });
    }
    files.push(HistoryFile { name: "notes.txt".to_string(), modified: Timestamp { secs: 0, nanos: 0 } });
    files.push(HistoryFile { name: ".json".to_string(), modified: Timestamp { secs: 0, nanos: 0 } });
    let mut removed = svc.files_to_remove(files);
    removed.sort();
    assert_eq!(removed, vec!["repositories_00.json".to_string(), "repositories_07.json".to_string()]);
}

#[test]
fn history_ties_drop_the_earlier_listed() {
    let svc = CacheService::new();
    let mut files = Vec::new();
    for i in 0..11 {
        files.push(HistoryFile { name: format!("s{:02}.json", i), modified: Timestamp { secs: 5, nanos: 0 } });
    }
    assert_eq!(svc.files_to_remove(files), vec!["s00.json".to_string()]);
    let few = vec![HistoryFile { name: "a.json".to_string(), modified: NOW }];
    assert!(svc.files_to_remove(few).is_empty());
}

#[test]
fn backup_names() {
    let svc = CacheService::new();
    assert_eq!(svc.backup_file_name("20240102_030405"), "repositories_20240102_030405.json");
    let n = svc.next_backup_file_name().expect("the clock gives a date");
    assert!(n.starts_with("repositories_") && n.ends_with(".json"));
    assert_eq!(n.len(), "repositories_20240102_030405.json".len());
    assert_eq!(svc.backup_file_name_at(Timestamp { secs: 0, nanos: 0 }), Some("repositories_19700101_000000.json".to_string()));
    assert_eq!(
        svc.backup_file_name_at(Timestamp { secs: 1_700_000_000, nanos: 999 }),
        Some("repositories_20231114_221320.json".to_string())
    );
    assert_eq!(svc.backup_file_name_at(Timestamp { secs: i64::MAX, nanos: 0 }), None);
}

#[test]
fn default_settings() {
    let s = CacheSettings::default();
    assert_eq!((s.max_cache_age_hours, s.max_history_files, s.auto_cleanup_enabled, s.max_cache_size_mb), (24, 10, true, 100));
    let f = FilterPreferences::default();
    assert_eq!(f.default_sort_by, "name");
    assert_eq!(f.default_sort_order, "asc");
    assert!(!f.show_git_only && !f.show_with_changes && !f.show_without_remotes);
}
