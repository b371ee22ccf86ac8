use vstd::prelude::*;
use crate::text::{copy_strings, copy_opt_string};

verus! {

/// A point in time: whole seconds since the Unix epoch and the nanoseconds
/// past that second.
#[derive(Clone, Copy, Debug, PartialEq, Eq, Structural)]
pub struct Timestamp {
    pub secs: i64,
    pub nanos: u32,
}

/// The working-tree state of a classified directory.
#[derive(Clone, Copy, Debug, PartialEq, Eq, Structural)]
pub enum RepoStatus {
    Clean,
    Dirty,
    Untracked,
    NoGit,
}

/// One classified directory.
///
/// `path` is the key of the entity everywhere. `size_bytes` is the sampled
/// size of the files at most two levels below the directory.
#[derive(Clone, Debug)]
pub struct Repository {
    pub name: String,
    pub path: String,
    pub is_git_repo: bool,
    pub has_uncommitted_changes: bool,
    pub current_branch: Option<String>,
    pub remotes: Vec<String>,
    pub last_commit_date: Option<Timestamp>,
    pub last_activity: Option<Timestamp>,
    pub status: RepoStatus,
    pub size_bytes: u64,
    pub commit_count: Option<u32>,
    pub primary_language: Option<String>,
    pub total_lines: usize,
    pub code_lines: usize,
}

/// Working-tree status of a repository, as sorted out of the per-file flags.
#[derive(Clone, Debug)]
pub struct GitStatus {
    pub is_clean: bool,
    pub staged_files: Vec<String>,
    pub unstaged_files: Vec<String>,
    pub untracked_files: Vec<String>,
    pub ahead: u32,
    pub behind: u32,
    pub current_branch: Option<String>,
    pub tracking_branch: Option<String>,
}

/// A configured remote of a repository.
#[derive(Clone, Debug)]
pub struct RemoteInfo {
    pub name: String,
    pub url: String,
    pub fetch_url: Option<String>,
    pub push_url: Option<String>,
}

/// A local or remote-tracking branch of a repository.
#[derive(Clone, Debug)]
pub struct BranchInfo {
    pub name: String,
    pub is_current: bool,
    pub is_remote: bool,
    pub upstream: Option<String>,
    pub last_commit: Option<Timestamp>,
    pub ahead: u32,
    pub behind: u32,
}

impl Repository {
    /// A copy of this repository, equal to it in every field.
    pub fn duplicate(&self) -> (r: Repository)
        ensures
            same_repository(r, *self),
    {
        Repository {
            name: self.name.clone(),
            path: self.path.clone(),
            is_git_repo: self.is_git_repo,
            has_uncommitted_changes: self.has_uncommitted_changes,
            current_branch: copy_opt_string(&self.current_branch),
            remotes: copy_strings(&self.remotes),
            last_commit_date: self.last_commit_date,
            last_activity: self.last_activity,
            status: self.status,
            size_bytes: self.size_bytes,
            commit_count: self.commit_count,
            primary_language: copy_opt_string(&self.primary_language),
            total_lines: self.total_lines,
            code_lines: self.code_lines,
        }
    }
}

/// `a` and `b` hold the same values in every field.
pub open spec fn same_repository(a: Repository, b: Repository) -> bool {
    &&& a.name == b.name
    &&& a.path == b.path
    &&& a.is_git_repo == b.is_git_repo
    &&& a.has_uncommitted_changes == b.has_uncommitted_changes
    &&& a.current_branch == b.current_branch
    &&& a.remotes@ == b.remotes@
    &&& a.last_commit_date == b.last_commit_date
    &&& a.last_activity == b.last_activity
    &&& a.status == b.status
    &&& a.size_bytes == b.size_bytes
    &&& a.commit_count == b.commit_count
    &&& a.primary_language == b.primary_language
    &&& a.total_lines == b.total_lines
    &&& a.code_lines == b.code_lines
}

pub proof fn lemma_push_contains<A>(s: Seq<A>, x: A, p: A)
    ensures
        s.push(x).contains(p) <==> s.contains(p) || p == x,
{
    let t = s.push(x);
    if t.contains(p) && p != x {
        let k = choose|k: int| 0 <= k < t.len() && t[k] == p;
        assert(s[k] == p);
    }
    if s.contains(p) {
        let k = choose|k: int| 0 <= k < s.len() && s[k] == p;
        assert(t[k] == p);
    }
    if p == x {
        assert(t[s.len() as int] == p);
    }
}

/// The paths of a sequence of repositories.
pub open spec fn paths_of(s: Seq<Repository>) -> Seq<Seq<char>> {
    s.map_values(|r: Repository| r.path@)
}

/// The views of a sequence of strings.
pub open spec fn views_of(s: Seq<String>) -> Seq<Seq<char>> {
    s.map_values(|x: String| x@)
}

} // verus!
