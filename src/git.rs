use vstd::prelude::*;
use crate::model::{GitStatus, RemoteInfo, BranchInfo, Timestamp, views_of};

verus! {

// Status flags of one file, as libgit2 lays them out (`git_status_t`).
pub const INDEX_NEW: u32 = 1;
pub const INDEX_MODIFIED: u32 = 2;
pub const INDEX_DELETED: u32 = 4;
pub const INDEX_RENAMED: u32 = 8;
pub const INDEX_TYPECHANGE: u32 = 16;
pub const WT_NEW: u32 = 128;
pub const WT_MODIFIED: u32 = 256;
pub const WT_DELETED: u32 = 512;
pub const WT_TYPECHANGE: u32 = 1024;
pub const WT_RENAMED: u32 = 2048;

/// One entry of a repository's status list: the file's path when it is
/// readable as text, and its status flags.
#[derive(Clone, Debug)]
pub struct StatusEntry {
    pub path: Option<String>,
    pub flags: u32,
}

/// A branch as read from the repository: its name when it is readable as
/// text, its upstream branch, and the time of the commit it points at.
#[derive(Clone, Debug)]
pub struct BranchFacts {
    pub name: Option<String>,
    pub upstream: Option<String>,
    pub last_commit: Option<Timestamp>,
}

/// Why the current branch could not be read.
#[derive(Clone, Copy, Debug, PartialEq, Eq, Structural)]
pub enum HeadErrorKind {
    UnbornBranch,
    NotFound,
    Other,
}

/// An error met while reading a repository's HEAD.
#[derive(Clone, Debug)]
pub struct HeadError {
    pub kind: HeadErrorKind,
    pub message: String,
}

/// Staged in the index: added, modified, deleted, renamed or retyped.
pub open spec fn is_staged(flags: u32) -> bool {
    flags & (INDEX_NEW | INDEX_MODIFIED | INDEX_DELETED | INDEX_RENAMED | INDEX_TYPECHANGE) != 0
}

/// Changed in the working tree: modified, deleted, renamed or retyped.
pub open spec fn is_unstaged(flags: u32) -> bool {
    flags & (WT_MODIFIED | WT_DELETED | WT_RENAMED | WT_TYPECHANGE) != 0
}

/// New in the working tree.
pub open spec fn is_untracked(flags: u32) -> bool {
    flags & WT_NEW != 0
}

pub open spec fn entry_path(e: StatusEntry) -> Seq<char> {
    match e.path {
        Some(p) => p@,
        None => Seq::empty(),
    }
}

/// The paths of the entries whose flags satisfy `pred`, in order.
pub open spec fn paths_where(entries: Seq<StatusEntry>, pred: spec_fn(u32) -> bool) -> Seq<Seq<char>>
    decreases entries.len(),
{
    if entries.len() == 0 {
        Seq::empty()
    } else {
        let rest = paths_where(entries.drop_last(), pred);
        if pred(entries.last().flags) {
            rest.push(entry_path(entries.last()))
        } else {
            rest
        }
    }
}

pub open spec fn local_branch(current: Option<String>, f: BranchFacts) -> BranchInfo {
    BranchInfo {
        name: f.name->0,
        is_current: current is Some && current->0@ == f.name->0@,
        is_remote: false,
        upstream: f.upstream,
        last_commit: f.last_commit,
        ahead: 0,
        behind: 0,
    }
}

pub open spec fn remote_branch(f: BranchFacts) -> BranchInfo {
    BranchInfo {
        name: f.name->0,
        is_current: false,
        is_remote: true,
        upstream: None,
        last_commit: f.last_commit,
        ahead: 0,
        behind: 0,
    }
}

/// The named branches of `fs`, as local branches when `local`, in order.
pub open spec fn branch_infos(current: Option<String>, fs: Seq<BranchFacts>, local: bool) -> Seq<BranchInfo>
    decreases fs.len(),
{
    if fs.len() == 0 {
        Seq::empty()
    } else {
        let rest = branch_infos(current, fs.drop_last(), local);
        if fs.last().name is Some {
            rest.push(
                if local {
                    local_branch(current, fs.last())
                } else {
                    remote_branch(fs.last())
                },
            )
        } else {
            rest
        }
    }
}

fn entry_path_text(e: &StatusEntry) -> (r: String)
    ensures
        r@ == entry_path(*e),
{
    match &e.path {
        Some(p) => p.clone(),
        None => String::new(),
    }
}

/// Sorts out repository state read through libgit2.
pub struct GitAdapter;

impl GitAdapter {
    pub fn new() -> (r: Self) {
        GitAdapter
    }

    /// The status of a repository from its per-file status entries and its
    /// branches. Ahead and behind counts are not computed and stay zero.
    pub fn status_from_entries(
        &self,
        entries: &Vec<StatusEntry>,
        current_branch: Option<String>,
        tracking_branch: Option<String>,
    ) -> (r: GitStatus)
        ensures
            views_of(r.staged_files@) == paths_where(entries@, |f: u32| is_staged(f)),
            views_of(r.unstaged_files@) == paths_where(entries@, |f: u32| is_unstaged(f)),
            views_of(r.untracked_files@) == paths_where(entries@, |f: u32| is_untracked(f)),
            r.is_clean == (r.staged_files@.len() == 0 && r.unstaged_files@.len() == 0
                && r.untracked_files@.len() == 0),
            r.ahead == 0,
            r.behind == 0,
            r.current_branch == current_branch,
            r.tracking_branch == tracking_branch,
    {
        let mut staged: Vec<String> = Vec::new();
        let mut unstaged: Vec<String> = Vec::new();
        let mut untracked: Vec<String> = Vec::new();
        let mut i: usize = 0;
        while i < entries.len()
            invariant
                i <= entries@.len(),
                views_of(staged@) == paths_where(entries@.take(i as int), |f: u32| is_staged(f)),
                views_of(unstaged@) == paths_where(entries@.take(i as int), |f: u32| is_unstaged(f)),
                views_of(untracked@) == paths_where(entries@.take(i as int), |f: u32| is_untracked(f)),
            decreases entries@.len() - i,
        {
            let e = &entries[i];
            let flags = e.flags;
            proof {
                assert(entries@.take(i + 1).drop_last() == entries@.take(i as int));
                assert(entries@.take(i + 1).last() == *e);
            }
            if flags & (INDEX_NEW | INDEX_MODIFIED | INDEX_DELETED | INDEX_RENAMED | INDEX_TYPECHANGE) != 0 {
                let ghost old = views_of(staged@);
                staged.push(entry_path_text(e));
                assert(views_of(staged@) =~= old.push(entry_path(*e)));
            }
            if flags & (WT_MODIFIED | WT_DELETED | WT_RENAMED | WT_TYPECHANGE) != 0 {
                let ghost old = views_of(unstaged@);
                unstaged.push(entry_path_text(e));
                assert(views_of(unstaged@) =~= old.push(entry_path(*e)));
            }
            if flags & WT_NEW != 0 {
                let ghost old = views_of(untracked@);
                untracked.push(entry_path_text(e));
                assert(views_of(untracked@) =~= old.push(entry_path(*e)));
            }
            i += 1;
        }
        assert(entries@.take(entries@.len() as int) == entries@);
        let is_clean = staged.len() == 0 && unstaged.len() == 0 && untracked.len() == 0;
        GitStatus {
            is_clean,
            staged_files: staged,
            unstaged_files: unstaged,
            untracked_files: untracked,
            ahead: 0,
            behind: 0,
            current_branch,
            tracking_branch,
        }
    }

    /// A remote named `name`: its URL, empty when it has none, serves for
    /// fetching too.
    pub fn remote_info(&self, name: String, url: Option<String>, push_url: Option<String>) -> (r: RemoteInfo)
        ensures
            r.name == name,
            r.url@ == (match url {
                Some(u) => u@,
                None => Seq::<char>::empty(),
            }),
            r.fetch_url == url,
            r.push_url == push_url,
    {
        let shown = match &url {
            Some(u) => u.clone(),
            None => String::new(),
        };
        RemoteInfo { name, url: shown, fetch_url: url, push_url }
    }

    /// The branches of a repository whose HEAD is `current`: the named local
    /// branches, then the named remote-tracking ones.
    pub fn branch_list(&self, current: &Option<String>, local: Vec<BranchFacts>, remote: Vec<BranchFacts>) -> (r: Vec<BranchInfo>)
        ensures
            r@ == branch_infos(*current, local@, true) + branch_infos(*current, remote@, false),
    {
        let mut out: Vec<BranchInfo> = Vec::new();
        let ghost lv = local@;
        let ghost rv = remote@;
        let n = local.len();
        let mut src = local;
        let mut i: usize = 0;
        while i < n
            invariant
                n == lv.len(),
                i <= n,
                src@ == lv.subrange(i as int, n as int),
                out@ == branch_infos(*current, lv.take(i as int), true),
            decreases n - i,
        {
            assert(src@[0] == lv[i as int]);
            let f = src.remove(0);
            assert(src@ =~= lv.subrange(i + 1, n as int));
            assert(lv.take(i + 1).drop_last() == lv.take(i as int));
            assert(lv.take(i + 1).last() == f);
            let ghost fg = f;
            let BranchFacts { name, upstream, last_commit } = f;
            match name {
                Some(nm) => {
                    let is_current = match current {
                        Some(c) => *c == nm,
                        None => false,
                    };
                    out.push(BranchInfo { name: nm, is_current, is_remote: false, upstream, last_commit, ahead: 0, behind: 0 });
                    assert(out@.last() == local_branch(*current, fg));
                },
                None => {},
            }
            i += 1;
        }
        assert(lv.take(n as int) == lv);
        let ghost first = out@;
        let m = remote.len();
        let mut src = remote;
        let mut j: usize = 0;
        while j < m
            invariant
                m == rv.len(),
                j <= m,
                src@ == rv.subrange(j as int, m as int),
                out@ == first + branch_infos(*current, rv.take(j as int), false),
            decreases m - j,
        {
            assert(src@[0] == rv[j as int]);
            let f = src.remove(0);
            assert(src@ =~= rv.subrange(j + 1, m as int));
            assert(rv.take(j + 1).drop_last() == rv.take(j as int));
            assert(rv.take(j + 1).last() == f);
            let ghost fg = f;
            let ghost prev = branch_infos(*current, rv.take(j as int), false);
            let BranchFacts { name, upstream: _, last_commit } = f;
            match name {
                Some(nm) => {
                    out.push(BranchInfo { name: nm, is_current: false, is_remote: true, upstream: None, last_commit, ahead: 0, behind: 0 });
                    assert(out@ =~= first + prev.push(remote_branch(fg)));
                },
                None => {},
            }
            j += 1;
        }
        assert(rv.take(m as int) == rv);
        out
    }

    /// The current branch from what reading HEAD gave: an unborn or missing
    /// HEAD means no current branch; any other error is passed on.
    pub fn current_branch_from_head(&self, head: Result<Option<String>, HeadError>) -> (r: Result<Option<String>, HeadError>)
        ensures
            r == (match head {
                Ok(b) => Ok(b),
                Err(e) => if e.kind == HeadErrorKind::UnbornBranch || e.kind == HeadErrorKind::NotFound {
                    Ok(None)
                } else {
                    Err(e)
                },
            }),
    {
        match head {
            Ok(b) => Ok(b),
            Err(e) => {
                if e.kind == HeadErrorKind::UnbornBranch || e.kind == HeadErrorKind::NotFound {
                    Ok(None)
                } else {
                    Err(e)
                }
            },
        }
    }
}

} // verus!
