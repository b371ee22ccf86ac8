use vstd::prelude::*;

verus! {

/// Default filters of the repository list.
#[derive(Clone, Debug)]
pub struct FilterPreferences {
    pub show_git_only: bool,
    pub show_with_changes: bool,
    pub show_without_remotes: bool,
    pub default_sort_by: String,
    pub default_sort_order: String,
}

impl Default for FilterPreferences {
    fn default() -> (r: Self)
        ensures
            !r.show_git_only,
            !r.show_with_changes,
            !r.show_without_remotes,
            r.default_sort_by@ == "name"@,
            r.default_sort_order@ == "asc"@,
    {
        FilterPreferences {
            show_git_only: false,
            show_with_changes: false,
            show_without_remotes: false,
            default_sort_by: "name".to_string(),
            default_sort_order: "asc".to_string(),
        }
    }
}

/// Limits of the cache.
#[derive(Clone, Copy, Debug, PartialEq, Eq, Structural)]
pub struct CacheSettings {
    /// Hours after which a cached entry is considered stale.
    pub max_cache_age_hours: u32,
    /// Historical snapshots kept.
    pub max_history_files: u32,
    pub auto_cleanup_enabled: bool,
    pub max_cache_size_mb: u32,
}

impl Default for CacheSettings {
    fn default() -> (r: Self)
        ensures
            r.max_cache_age_hours == 24,
            r.max_history_files == 10,
            r.auto_cleanup_enabled,
            r.max_cache_size_mb == 100,
    {
        CacheSettings { max_cache_age_hours: 24, max_history_files: 10, auto_cleanup_enabled: true, max_cache_size_mb: 100 }
    }
}

/// Sizes of what the cache holds on disk.
#[derive(Clone, Debug)]
pub struct CacheStats {
    pub cache_file_size_bytes: u64,
    pub history_files_count: usize,
    pub total_cache_size_bytes: u64,
    pub cache_directory: String,
}

} // verus!
