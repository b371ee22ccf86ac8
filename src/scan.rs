use vstd::prelude::*;
use crate::model::{Repository, RepoStatus, GitStatus, RemoteInfo, Timestamp, views_of};
use crate::filter::{IgnoreAdapter, skips_name};
use crate::text::{chars_of, same_chars, chars_less, chars_lt};

verus! {

/// Directories larger than this many bytes that are not repositories are not
/// profiled for languages.
pub const LARGE_DIRECTORY_BYTES: u64 = 10 * 1024 * 1024;

/// Directories with fewer code lines than this, no repository and no project
/// indicator file are dropped from a scan.
pub const MIN_CODE_LINES: usize = 10;

/// One entry yielded by the ignore-aware walk below the scan root: its path,
/// its final component when that is readable, whether it is a directory, and
/// whether it is a repository root.
#[derive(Clone, Debug)]
pub struct WalkEntry {
    pub path: String,
    pub name: Option<String>,
    pub is_dir: bool,
    pub is_repo_root: bool,
}

/// What the language profiler reports for a directory.
#[derive(Clone, Debug)]
pub struct LanguageProfile {
    pub primary_language: Option<String>,
    pub total_lines: usize,
    pub code_lines: usize,
}

/// What was observed of one candidate directory. A field that could not be
/// read holds its absent value: `git_status` or `remotes` is `None` when the
/// repository could not be read, `last_activity` when no modification time was
/// available.
#[derive(Clone, Debug)]
pub struct DirectoryFacts {
    pub name: Option<String>,
    pub size_bytes: u64,
    pub is_repo_root: bool,
    pub profile: LanguageProfile,
    pub git_status: Option<GitStatus>,
    pub remotes: Option<Vec<RemoteInfo>>,
    pub last_activity: Option<Timestamp>,
    pub has_project_indicators: bool,
}

/// `a` is a proper ancestor of `p`: a prefix of it that ends at a separator.
pub open spec fn is_strict_ancestor(a: Seq<char>, p: Seq<char>) -> bool {
    &&& a.len() < p.len()
    &&& p.subrange(0, a.len() as int) == a
    &&& ((a.len() > 0 && a[a.len() - 1] == '/') || p[a.len() as int] == '/')
}

/// Some repository root of the walk, other than the scan root itself, is a
/// proper ancestor of `p`.
pub open spec fn inside_repo(entries: Seq<WalkEntry>, base: Seq<char>, p: Seq<char>) -> bool {
    exists|j: int|
        0 <= j < entries.len() && (#[trigger] entries[j]).is_repo_root && entries[j].path@ != base
            && is_strict_ancestor(entries[j].path@, p)
}

pub open spec fn name_or_empty(n: Option<String>) -> Seq<char> {
    match n {
        Some(s) => s@,
        None => Seq::empty(),
    }
}

/// A walked entry is classified when it is a directory, is not nested below a
/// repository root, and its name is not filtered out.
pub open spec fn is_candidate(entries: Seq<WalkEntry>, base: Seq<char>, e: WalkEntry) -> bool {
    &&& e.is_dir
    &&& !(e.path@ != base && inside_repo(entries, base, e.path@))
    &&& !skips_name(name_or_empty(e.name))
}

/// The candidates among the first entries of `upto`, in walk order.
pub open spec fn candidates_in(entries: Seq<WalkEntry>, base: Seq<char>, upto: Seq<WalkEntry>) -> Seq<Seq<char>>
    decreases upto.len(),
{
    if upto.len() == 0 {
        Seq::empty()
    } else {
        let rest = candidates_in(entries, base, upto.drop_last());
        if is_candidate(entries, base, upto.last()) {
            rest.push(upto.last().path@)
        } else {
            rest
        }
    }
}

/// The directories a scan classifies: the root alone when it is itself a
/// repository root, else the candidates of the walk in walk order.
pub open spec fn candidate_paths(base: Seq<char>, base_is_repo: bool, entries: Seq<WalkEntry>) -> Seq<Seq<char>> {
    if base_is_repo {
        seq![base]
    } else {
        candidates_in(entries, base, entries)
    }
}

/// The language profile is skipped for large directories that are not
/// repository roots.
pub open spec fn profile_skipped(size_bytes: u64, is_repo_root: bool) -> bool {
    size_bytes > LARGE_DIRECTORY_BYTES && !is_repo_root
}

pub open spec fn has_changes(g: Option<GitStatus>) -> bool {
    match g {
        Some(s) => !s.is_clean,
        None => false,
    }
}

/// Dirty when something is staged or modified, Untracked when the only
/// changes are untracked files, Clean otherwise.
pub open spec fn status_of(g: Option<GitStatus>) -> RepoStatus {
    match g {
        Some(s) => if !s.is_clean {
            if s.unstaged_files@.len() > 0 || s.staged_files@.len() > 0 {
                RepoStatus::Dirty
            } else {
                RepoStatus::Untracked
            }
        } else {
            RepoStatus::Clean
        },
        None => RepoStatus::Clean,
    }
}

pub open spec fn branch_of(g: Option<GitStatus>) -> Option<String> {
    match g {
        Some(s) => s.current_branch,
        None => None,
    }
}

/// A remote as the text `name: url`.
pub open spec fn remote_line(r: RemoteInfo) -> Seq<char> {
    r.name@ + ": "@ + r.url@
}

pub open spec fn remote_lines(rs: Option<Vec<RemoteInfo>>) -> Seq<Seq<char>> {
    match rs {
        Some(v) => v@.map_values(|r: RemoteInfo| remote_line(r)),
        None => Seq::empty(),
    }
}

/// `r` is the classification of the directory at `path` with facts `f`.
pub open spec fn classifies(path: Seq<char>, f: DirectoryFacts, r: Repository) -> bool {
    &&& r.name@ == (match f.name {
        Some(n) => n@,
        None => "unknown"@,
    })
    &&& r.path@ == path
    &&& r.size_bytes == f.size_bytes
    &&& r.last_activity == f.last_activity
    &&& r.last_commit_date is None
    &&& r.commit_count is None
    &&& if profile_skipped(f.size_bytes, f.is_repo_root) {
        &&& r.primary_language is Some
        &&& r.primary_language->0@ == "Mixed"@
        &&& r.total_lines == 0
        &&& r.code_lines == 0
    } else {
        &&& r.primary_language == f.profile.primary_language
        &&& r.total_lines == f.profile.total_lines
        &&& r.code_lines == f.profile.code_lines
    }
    &&& r.is_git_repo == f.is_repo_root
    &&& if f.is_repo_root {
        &&& r.has_uncommitted_changes == has_changes(f.git_status)
        &&& r.current_branch == branch_of(f.git_status)
        &&& views_of(r.remotes@) == remote_lines(f.remotes)
        &&& r.status == status_of(f.git_status)
    } else {
        &&& !r.has_uncommitted_changes
        &&& r.current_branch is None
        &&& r.remotes@.len() == 0
        &&& r.status == RepoStatus::NoGit
    }
}

/// A classified directory stays in the result when it is a repository, has
/// enough code lines, or holds a project indicator file.
pub open spec fn relevant(r: Repository, has_indicators: bool) -> bool {
    r.is_git_repo || r.code_lines >= MIN_CODE_LINES || has_indicators
}

/// The relevant classified directories, in order.
pub open spec fn kept_of(cl: Seq<Repository>, ind: Seq<bool>) -> Seq<Repository>
    decreases cl.len(),
{
    if cl.len() == 0 {
        Seq::empty()
    } else {
        let rest = kept_of(cl.drop_last(), ind);
        if relevant(cl.last(), ind[cl.len() - 1]) {
            rest.push(cl.last())
        } else {
            rest
        }
    }
}

pub open spec fn indicators_of(obs: Seq<(String, DirectoryFacts)>) -> Seq<bool> {
    obs.map_values(|o: (String, DirectoryFacts)| o.1.has_project_indicators)
}

/// Entry `i` of `s` comes before entry `j` by name, ties kept in order.
pub open spec fn name_before(s: Seq<Repository>, i: int, j: int) -> bool {
    chars_lt(s[i].name@, s[j].name@) || (s[i].name@ == s[j].name@ && i < j)
}

/// `output` is `input` ordered by name, entries of equal name in their
/// input order; `p` gives the input position of each output entry.
pub open spec fn is_name_order(input: Seq<Repository>, output: Seq<Repository>, p: Seq<int>) -> bool {
    &&& p.len() == input.len()
    &&& output.len() == input.len()
    &&& forall|k: int| 0 <= k < p.len() ==> 0 <= #[trigger] p[k] < input.len() && output[k] == input[p[k]]
    &&& forall|j: int| 0 <= j < input.len() ==> #[trigger] p.contains(j)
    &&& forall|k1: int, k2: int| 0 <= k1 < k2 < p.len() ==> name_before(input, #[trigger] p[k1], #[trigger] p[k2])
}

pub open spec fn sorted_by_name(input: Seq<Repository>, output: Seq<Repository>) -> bool {
    exists|p: Seq<int>| is_name_order(input, output, p)
}

/// `result` is what a scan returns for the observed candidates `obs`: each
/// classified, the irrelevant ones dropped, the rest ordered by name.
pub open spec fn scan_result(obs: Seq<(String, DirectoryFacts)>, result: Seq<Repository>) -> bool {
    exists|cl: Seq<Repository>|
        {
            &&& cl.len() == obs.len()
            &&& forall|i: int| 0 <= i < obs.len() ==> classifies(obs[i].0@, obs[i].1, #[trigger] cl[i])
            &&& sorted_by_name(kept_of(cl, indicators_of(obs)), result)
        }
}

pub proof fn lemma_chars_lt_transitive(a: Seq<char>, b: Seq<char>, c: Seq<char>)
    requires
        chars_lt(a, b),
        chars_lt(b, c),
    ensures
        chars_lt(a, c),
    decreases a.len(),
{
    if a.len() > 0 && b.len() > 0 && c.len() > 0 && a[0] == b[0] && b[0] == c[0] {
        lemma_chars_lt_transitive(a.drop_first(), b.drop_first(), c.drop_first());
    }
}

pub proof fn lemma_chars_lt_total(a: Seq<char>, b: Seq<char>)
    ensures
        chars_lt(a, b) || chars_lt(b, a) || a == b,
    decreases a.len(),
{
    if a.len() > 0 && b.len() > 0 && a[0] == b[0] {
        lemma_chars_lt_total(a.drop_first(), b.drop_first());
        if a.drop_first() == b.drop_first() {
            assert(a == seq![a[0]] + a.drop_first());
            assert(b == seq![b[0]] + b.drop_first());
        }
    } else if a.len() == 0 && b.len() == 0 {
        assert(a == b);
    }
}

pub proof fn lemma_candidate_member(entries: Seq<WalkEntry>, base: Seq<char>, upto: Seq<WalkEntry>, m: int)
    requires
        0 <= m < candidates_in(entries, base, upto).len(),
    ensures
        exists|i: int|
            0 <= i < upto.len() && is_candidate(entries, base, #[trigger] upto[i]) && upto[i].path@ == candidates_in(
                entries,
                base,
                upto,
            )[m],
    decreases upto.len(),
{
    let rest = candidates_in(entries, base, upto.drop_last());
    if m < rest.len() {
        lemma_candidate_member(entries, base, upto.drop_last(), m);
        let i = choose|i: int|
            0 <= i < upto.drop_last().len() && is_candidate(entries, base, #[trigger] upto.drop_last()[i])
                && upto.drop_last()[i].path@ == rest[m];
        assert(upto[i] == upto.drop_last()[i]);
    } else {
        assert(upto[upto.len() - 1] == upto.last());
    }
}

pub proof fn lemma_kept_member(cl: Seq<Repository>, ind: Seq<bool>, m: int)
    requires
        0 <= m < kept_of(cl, ind).len(),
    ensures
        exists|i: int| 0 <= i < cl.len() && kept_of(cl, ind)[m] == #[trigger] cl[i],
    decreases cl.len(),
{
    let rest = kept_of(cl.drop_last(), ind);
    if m < rest.len() {
        lemma_kept_member(cl.drop_last(), ind, m);
        let i = choose|i: int| 0 <= i < cl.drop_last().len() && rest[m] == #[trigger] cl.drop_last()[i];
        assert(cl[i] == cl.drop_last()[i]);
    } else {
        assert(cl[cl.len() - 1] == cl.last());
    }
}

pub open spec fn walk_paths(entries: Seq<WalkEntry>) -> Seq<Seq<char>> {
    entries.map_values(|e: WalkEntry| e.path@)
}

/// A walk that meets each path once yields each candidate once.
pub proof fn lemma_candidates_distinct(entries: Seq<WalkEntry>, base: Seq<char>, upto: Seq<WalkEntry>)
    requires
        walk_paths(upto).no_duplicates(),
    ensures
        candidates_in(entries, base, upto).no_duplicates(),
    decreases upto.len(),
{
    if upto.len() > 0 {
        let d = upto.drop_last();
        assert(walk_paths(d).no_duplicates()) by {
            assert forall|a: int, b: int| 0 <= a < d.len() && 0 <= b < d.len() && a != b implies walk_paths(d)[a] != walk_paths(d)[b] by {
                assert(walk_paths(d)[a] == walk_paths(upto)[a]);
                assert(walk_paths(d)[b] == walk_paths(upto)[b]);
            }
        }
        lemma_candidates_distinct(entries, base, d);
        let rest = candidates_in(entries, base, d);
        if is_candidate(entries, base, upto.last()) {
            let x = upto.last().path@;
            assert forall|m: int| 0 <= m < rest.len() implies rest[m] != x by {
                lemma_candidate_member(entries, base, d, m);
                let i = choose|i: int| 0 <= i < d.len() && is_candidate(entries, base, #[trigger] d[i]) && d[i].path@ == rest[m];
                assert(walk_paths(upto)[i] == rest[m]);
                assert(walk_paths(upto)[upto.len() - 1] == x);
            }
            let c = rest.push(x);
            assert forall|a: int, b: int| 0 <= a < c.len() && 0 <= b < c.len() && a != b implies c[a] != c[b] by {
                if a < rest.len() && b < rest.len() {
                    assert(c[a] == rest[a] && c[b] == rest[b]);
                }
            }
        }
    }
}

/// Boundary exclusivity: when the walk lies below the scan root, no
/// directory below a repository root of the walk (other than the scan root)
/// is an entity of the scan's result. The requirements on `observed` and
/// `result` are what `scan_directory_with_progress` ensures.
pub proof fn lemma_boundary_exclusive(
    base: Seq<char>,
    base_is_repo: bool,
    entries: Seq<WalkEntry>,
    observed: Seq<(String, DirectoryFacts)>,
    result: Seq<Repository>,
    j: int,
    k: int,
)
    requires
        forall|i: int| 0 <= i < entries.len() ==> (#[trigger] entries[i]).path@ == base || is_strict_ancestor(base, entries[i].path@),
        observed.map_values(|o: (String, DirectoryFacts)| o.0@) == candidate_paths(base, base_is_repo, entries),
        scan_result(observed, result),
        0 <= j < entries.len(),
        entries[j].is_repo_root,
        entries[j].path@ != base,
        0 <= k < result.len(),
    ensures
        !is_strict_ancestor(entries[j].path@, result[k].path@),
{
    let cl = choose|cl: Seq<Repository>|
        {
            &&& cl.len() == observed.len()
            &&& forall|i: int| 0 <= i < observed.len() ==> classifies(observed[i].0@, observed[i].1, #[trigger] cl[i])
            &&& sorted_by_name(kept_of(cl, indicators_of(observed)), result)
        };
    let kept = kept_of(cl, indicators_of(observed));
    let p = choose|p: Seq<int>| is_name_order(kept, result, p);
    assert(0 <= p[k] < kept.len() && result[k] == kept[p[k]]);
    lemma_kept_member(cl, indicators_of(observed), p[k]);
    let i = choose|i: int| 0 <= i < cl.len() && kept[p[k]] == #[trigger] cl[i];
    assert(classifies(observed[i].0@, observed[i].1, cl[i]));
    let cands = candidate_paths(base, base_is_repo, entries);
    assert(observed.map_values(|o: (String, DirectoryFacts)| o.0@)[i] == observed[i].0@);
    let path = cands[i];
    assert(result[k].path@ == path);
    assert(is_strict_ancestor(base, entries[j].path@));
    assert(observed.map_values(|o: (String, DirectoryFacts)| o.0@).len() == observed.len());
    if base_is_repo {
        assert(cands == seq![base]);
        assert(i == 0);
        assert(path == base);
    } else {
        lemma_candidate_member(entries, base, entries, i);
        let e = choose|e: int|
            0 <= e < entries.len() && is_candidate(entries, base, #[trigger] entries[e]) && entries[e].path@ == path;
        if path != base {
            assert(!inside_repo(entries, base, path));
        }
    }
}

/// The facts of two observations of one directory agree in everything but
/// its modification time.
pub open spec fn same_but_time(f1: DirectoryFacts, f2: DirectoryFacts) -> bool {
    &&& f1.name == f2.name
    &&& f1.size_bytes == f2.size_bytes
    &&& f1.is_repo_root == f2.is_repo_root
    &&& f1.profile == f2.profile
    &&& f1.git_status == f2.git_status
    &&& f1.remotes == f2.remotes
    &&& f1.has_project_indicators == f2.has_project_indicators
}

/// What a scan reports of each entity apart from times and sizes.
pub open spec fn identities(s: Seq<Repository>) -> Seq<(Seq<char>, RepoStatus, bool)> {
    s.map_values(|r: Repository| (r.path@, r.status, r.is_git_repo))
}

pub proof fn lemma_kept_agree(c1: Seq<Repository>, i1: Seq<bool>, c2: Seq<Repository>, i2: Seq<bool>)
    requires
        c1.len() == c2.len(),
        i1.len() >= c1.len(),
        i2.len() >= c2.len(),
        forall|i: int| 0 <= i < c1.len() ==> relevant(#[trigger] c1[i], i1[i]) == relevant(c2[i], i2[i]),
        forall|i: int| 0 <= i < c1.len() ==> (#[trigger] identities(c1)[i]) == identities(c2)[i],
    ensures
        identities(kept_of(c1, i1)) == identities(kept_of(c2, i2)),
    decreases c1.len(),
{
    if c1.len() > 0 {
        let d1 = c1.drop_last();
        let d2 = c2.drop_last();
        assert forall|i: int| 0 <= i < d1.len() implies relevant(#[trigger] d1[i], i1[i]) == relevant(d2[i], i2[i]) by {
            assert(d1[i] == c1[i] && d2[i] == c2[i]);
        }
        assert forall|i: int| 0 <= i < d1.len() implies (#[trigger] identities(d1)[i]) == identities(d2)[i] by {
            assert(identities(d1)[i] == identities(c1)[i]);
            assert(identities(d2)[i] == identities(c2)[i]);
        }
        lemma_kept_agree(d1, i1, d2, i2);
        let n = c1.len() - 1;
        assert(relevant(c1[n], i1[n]) == relevant(c2[n], i2[n]));
        assert(identities(c1)[n] == identities(c2)[n]);
        let k1 = kept_of(d1, i1);
        let k2 = kept_of(d2, i2);
        if relevant(c1[n], i1[n]) {
            assert(identities(k1.push(c1[n])) =~= identities(k1).push(identities(c1)[n]));
            assert(identities(k2.push(c2[n])) =~= identities(k2).push(identities(c2)[n]));
        }
    }
}

pub proof fn lemma_identities_of_order(input: Seq<Repository>, output: Seq<Repository>, p: Seq<int>, t: (Seq<char>, RepoStatus, bool))
    requires
        is_name_order(input, output, p),
    ensures
        identities(output).contains(t) <==> identities(input).contains(t),
{
    if identities(output).contains(t) {
        let k = choose|k: int| 0 <= k < identities(output).len() && identities(output)[k] == t;
        assert(output[k] == input[p[k]]);
        assert(identities(input)[p[k]] == t);
    }
    if identities(input).contains(t) {
        let j = choose|j: int| 0 <= j < identities(input).len() && identities(input)[j] == t;
        assert(p.contains(j));
        let k = choose|k: int| 0 <= k < p.len() && p[k] == j;
        assert(output[k] == input[j]);
        assert(identities(output)[k] == t);
    }
}

/// Idempotence: two scans of an unchanged tree, whose observations differ
/// only in modification times, report the same set of paths with the same
/// statuses and kinds. `scan_result` is what `scan_directory_with_progress`
/// and `complete_scan` ensure of their result.
pub proof fn lemma_scan_idempotent(
    obs1: Seq<(String, DirectoryFacts)>,
    obs2: Seq<(String, DirectoryFacts)>,
    r1: Seq<Repository>,
    r2: Seq<Repository>,
    t: (Seq<char>, RepoStatus, bool),
)
    requires
        obs1.len() == obs2.len(),
        forall|i: int| 0 <= i < obs1.len() ==> (#[trigger] obs1[i]).0@ == obs2[i].0@ && same_but_time(obs1[i].1, obs2[i].1),
        scan_result(obs1, r1),
        scan_result(obs2, r2),
    ensures
        identities(r1).contains(t) <==> identities(r2).contains(t),
{
    let c1 = choose|cl: Seq<Repository>|
        {
            &&& cl.len() == obs1.len()
            &&& forall|i: int| 0 <= i < obs1.len() ==> classifies(obs1[i].0@, obs1[i].1, #[trigger] cl[i])
            &&& sorted_by_name(kept_of(cl, indicators_of(obs1)), r1)
        };
    let c2 = choose|cl: Seq<Repository>|
        {
            &&& cl.len() == obs2.len()
            &&& forall|i: int| 0 <= i < obs2.len() ==> classifies(obs2[i].0@, obs2[i].1, #[trigger] cl[i])
            &&& sorted_by_name(kept_of(cl, indicators_of(obs2)), r2)
        };
    let i1 = indicators_of(obs1);
    let i2 = indicators_of(obs2);
    assert forall|i: int| 0 <= i < c1.len() implies relevant(#[trigger] c1[i], i1[i]) == relevant(c2[i], i2[i]) && identities(c1)[i] == identities(c2)[i] by {
        assert(classifies(obs1[i].0@, obs1[i].1, c1[i]));
        assert(classifies(obs2[i].0@, obs2[i].1, c2[i]));
        assert(obs1[i].0@ == obs2[i].0@ && same_but_time(obs1[i].1, obs2[i].1));
        assert(identities(c1)[i] == (c1[i].path@, c1[i].status, c1[i].is_git_repo));
        assert(identities(c2)[i] == (c2[i].path@, c2[i].status, c2[i].is_git_repo));
    }
    assert forall|i: int| 0 <= i < c1.len() implies (#[trigger] identities(c1)[i]) == identities(c2)[i] by {
        assert(relevant(c1[i], i1[i]) == relevant(c2[i], i2[i]));
    }
    lemma_kept_agree(c1, i1, c2, i2);
    let k1 = kept_of(c1, i1);
    let k2 = kept_of(c2, i2);
    let p1 = choose|p: Seq<int>| is_name_order(k1, r1, p);
    let p2 = choose|p: Seq<int>| is_name_order(k2, r2, p);
    lemma_identities_of_order(k1, r1, p1, t);
    lemma_identities_of_order(k2, r2, p2, t);
}

/// Whether `a` is a proper ancestor of `p`.
fn ancestor_check(a: &Vec<char>, p: &Vec<char>) -> (r: bool)
    ensures
        r == is_strict_ancestor(a@, p@),
{
    if a.len() >= p.len() {
        return false;
    }
    let mut i: usize = 0;
    while i < a.len()
        invariant
            a.len() < p.len(),
            i <= a.len(),
            p@.subrange(0, i as int) == a@.subrange(0, i as int),
        decreases a.len() - i,
    {
        if a[i] != p[i] {
            assert(p@.subrange(0, a.len() as int)[i as int] != a@[i as int]);
            return false;
        }
        assert(p@.subrange(0, i + 1) == p@.subrange(0, i as int).push(p@[i as int]));
        assert(a@.subrange(0, i + 1) == a@.subrange(0, i as int).push(a@[i as int]));
        i += 1;
    }
    assert(a@.subrange(0, a.len() as int) == a@);
    (a.len() > 0 && a[a.len() - 1] == '/') || p[a.len()] == '/'
}


/// The remotes of a repository as `name: url` lines; none when they could not
/// be read.
fn remote_text(remotes: Option<Vec<RemoteInfo>>) -> (r: Vec<String>)
    ensures
        views_of(r@) == remote_lines(remotes),
{
    let mut r: Vec<String> = Vec::new();
    match remotes {
        None => {
            assert(views_of(r@) =~= Seq::<Seq<char>>::empty());
        },
        Some(v) => {
            let mut i: usize = 0;
            while i < v.len()
                invariant
                    i <= v.len(),
                    views_of(r@) == v@.subrange(0, i as int).map_values(|x: RemoteInfo| remote_line(x)),
                decreases v.len() - i,
            {
                let mut line = v[i].name.clone();
                line.append(": ");
                line.append(v[i].url.as_str());
                let ghost old_r = r@;
                r.push(line);
                assert(views_of(r@) =~= views_of(old_r).push(remote_line(v@[i as int])));
                assert(v@.subrange(0, i + 1).map_values(|x: RemoteInfo| remote_line(x))
                    =~= v@.subrange(0, i as int).map_values(|x: RemoteInfo| remote_line(x)).push(remote_line(v@[i as int])));
                i += 1;
            }
            assert(v@.subrange(0, v.len() as int) == v@);
        },
    }
    r
}

/// Orders `v` by name, entries of equal name kept in their order.
pub fn sort_by_name(v: Vec<Repository>) -> (r: Vec<Repository>)
    ensures
        sorted_by_name(v@, r@),
{
    let ghost input = v@;
    let n = v.len();
    let mut src = v;
    let mut out: Vec<Repository> = Vec::new();
    let mut names: Vec<Vec<char>> = Vec::new();
    let ghost mut p: Seq<int> = Seq::empty();
    let mut i: usize = 0;
    while i < n
        invariant
            n == input.len(),
            i <= n,
            src@ == input.subrange(i as int, n as int),
            out@.len() == i,
            p.len() == i,
            names@.len() == i,
            forall|k: int| 0 <= k < i ==> (#[trigger] names@[k])@ == out@[k].name@,
            forall|k: int| 0 <= k < i ==> 0 <= #[trigger] p[k] < i && out@[k] == input[p[k]],
            forall|j: int| 0 <= j < i ==> #[trigger] p.contains(j),
            forall|k1: int, k2: int| 0 <= k1 < k2 < i ==> name_before(input, #[trigger] p[k1], #[trigger] p[k2]),
        decreases n - i,
    {
        assert(src@[0] == input[i as int]);
        let x = src.remove(0);
        assert(src@ =~= input.subrange(i + 1, n as int));
        let xc = chars_of(x.name.as_str());
        let mut pos: usize = 0;
        while pos < out.len() && !chars_less(&xc, &names[pos])
            invariant
                pos <= out@.len(),
                out@.len() == i,
                names@.len() == i,
                xc@ == x.name@,
                forall|k: int| 0 <= k < i ==> (#[trigger] names@[k])@ == out@[k].name@,
                forall|k: int| 0 <= k < pos ==> !chars_lt(x.name@, #[trigger] out@[k].name@),
            decreases i - pos,
        {
            pos += 1;
        }
        proof {
            let q = p.insert(pos as int, i as int);
            assert forall|k: int| 0 <= k < pos implies name_before(input, #[trigger] p[k], i as int) by {
                lemma_chars_lt_total(x.name@, out@[k].name@);
            }
            if pos < i {
                assert(chars_lt(x.name@, out@[pos as int].name@));
                assert forall|k: int| pos <= k < i implies name_before(input, i as int, #[trigger] p[k]) by {
                    if k > pos {
                        assert(name_before(input, p[pos as int], p[k]));
                        if chars_lt(input[p[pos as int]].name@, input[p[k]].name@) {
                            lemma_chars_lt_transitive(x.name@, input[p[pos as int]].name@, input[p[k]].name@);
                        }
                    }
                }
            }
            assert forall|k1: int, k2: int| 0 <= k1 < k2 < i + 1 implies name_before(input, #[trigger] q[k1], #[trigger] q[k2]) by {
                if k1 < pos && k2 < pos {
                    assert(q[k1] == p[k1] && q[k2] == p[k2]);
                } else if k1 < pos && k2 == pos {
                    assert(q[k2] == i);
                } else if k1 < pos {
                    assert(q[k1] == p[k1] && q[k2] == p[k2 - 1]);
                } else if k1 == pos {
                    assert(q[k1] == i && q[k2] == p[k2 - 1]);
                } else {
                    assert(q[k1] == p[k1 - 1] && q[k2] == p[k2 - 1]);
                }
            }
            assert forall|j: int| 0 <= j < i + 1 implies #[trigger] q.contains(j) by {
                if j == i {
                    assert(q[pos as int] == j);
                } else {
                    assert(p.contains(j));
                    let k = choose|k: int| 0 <= k < p.len() && p[k] == j;
                    if k < pos {
                        assert(q[k] == j);
                    } else {
                        assert(q[k + 1] == j);
                    }
                }
            }
        }
        let ghost old_out = out@;
        let ghost old_names = names@;
        out.insert(pos, x);
        names.insert(pos, xc);
        proof {
            let q = p.insert(pos as int, i as int);
            assert forall|k: int| 0 <= k < i + 1 implies 0 <= #[trigger] q[k] < i + 1 && out@[k] == input[q[k]] by {
                if k < pos {
                    assert(out@[k] == old_out[k]);
                } else if k > pos {
                    assert(out@[k] == old_out[k - 1]);
                }
            }
            assert forall|k: int| 0 <= k < i + 1 implies (#[trigger] names@[k])@ == out@[k].name@ by {
                if k < pos {
                    assert(names@[k] == old_names[k]);
                } else if k > pos {
                    assert(names@[k] == old_names[k - 1]);
                }
            }
            p = q;
        }
        i += 1;
    }
    assert(is_name_order(input, out@, p));
    out
}

/// Orchestrates a scan: picks the candidate directories, classifies them,
/// drops the irrelevant ones and orders the rest.
pub struct RepositoryService {
    ignore_adapter: IgnoreAdapter,
}

impl RepositoryService {
    pub fn new() -> (r: Self) {
        RepositoryService { ignore_adapter: IgnoreAdapter::new() }
    }

    /// Whether some repository root among `entries`, other than the root
    /// `base`, is a proper ancestor of `path`.
    pub fn is_inside_git_repo(&self, path: &str, base: &str, entries: &Vec<WalkEntry>) -> (r: bool)
        ensures
            r == inside_repo(entries@, base@, path@),
    {
        let pc = chars_of(path);
        let bc = chars_of(base);
        let mut j: usize = 0;
        while j < entries.len()
            invariant
                j <= entries.len(),
                pc@ == path@,
                bc@ == base@,
                forall|k: int|
                    0 <= k < j ==> !((#[trigger] entries@[k]).is_repo_root && entries@[k].path@ != base@
                        && is_strict_ancestor(entries@[k].path@, path@)),
            decreases entries.len() - j,
        {
            let e = &entries[j];
            if e.is_repo_root {
                let ec = chars_of(e.path.as_str());
                if !same_chars(&ec, &bc) && ancestor_check(&ec, &pc) {
                    assert(entries@[j as int].is_repo_root && entries@[j as int].path@ != base@
                        && is_strict_ancestor(entries@[j as int].path@, path@));
                    return true;
                }
            }
            j += 1;
        }
        false
    }

    /// The directories a scan of `base` classifies, in the order they are
    /// classified. When `base` is itself a repository root it is the only
    /// one and `entries` is not consulted.
    pub fn plan_scan(&self, base: &str, base_is_repo: bool, entries: &Vec<WalkEntry>) -> (r: Vec<String>)
        ensures
            views_of(r@) == candidate_paths(base@, base_is_repo, entries@),
            walk_paths(entries@).no_duplicates() ==> views_of(r@).no_duplicates(),
    {
        proof {
            if walk_paths(entries@).no_duplicates() {
                lemma_candidates_distinct(entries@, base@, entries@);
            }
        }
        if base_is_repo {
            let r = vec![base.to_string()];
            assert(views_of(r@) =~= seq![base@]);
            return r;
        }
        let bc = chars_of(base);
        let mut r: Vec<String> = Vec::new();
        let mut i: usize = 0;
        while i < entries.len()
            invariant
                i <= entries.len(),
                bc@ == base@,
                views_of(r@) == candidates_in(entries@, base@, entries@.take(i as int)),
            decreases entries.len() - i,
        {
            let e = &entries[i];
            proof {
                assert(entries@.take(i + 1).drop_last() == entries@.take(i as int));
                assert(entries@.take(i + 1).last() == entries@[i as int]);
            }
            if e.is_dir {
                let ec = chars_of(e.path.as_str());
                let nested = !same_chars(&ec, &bc) && self.is_inside_git_repo(e.path.as_str(), base, entries);
                if !nested {
                    let skip = match &e.name {
                        Some(n) => self.ignore_adapter.should_skip_directory(n.as_str()),
                        None => self.ignore_adapter.should_skip_directory(""),
                    };
                    proof {
                        if e.name is None {
                            assert(""@ =~= Seq::<char>::empty()) by {
                                reveal_strlit("");
                            }
                        }
                    }
                    if !skip {
                        let ghost old_r = r@;
                        r.push(e.path.clone());
                        assert(views_of(r@) =~= views_of(old_r).push(e.path@));
                    }
                }
            }
            i += 1;
        }
        assert(entries@.take(entries.len() as int) == entries@);
        r
    }

    /// Classifies the directory at `path` from what was observed of it.
    pub fn analyze_directory(&self, path: String, facts: DirectoryFacts) -> (r: Repository)
        ensures
            classifies(path@, facts, r),
    {
        let ghost f = facts;
        let DirectoryFacts {
            name,
            size_bytes,
            is_repo_root,
            profile,
            git_status,
            remotes,
            last_activity,
            has_project_indicators: _,
        } = facts;
        let name = match name {
            Some(n) => n,
            None => "unknown".to_string(),
        };
        let LanguageProfile { primary_language, total_lines, code_lines } = profile;
        let (primary_language, total_lines, code_lines) = if self.needs_language_profile(size_bytes, is_repo_root) {
            (primary_language, total_lines, code_lines)
        } else {
            (Some("Mixed".to_string()), 0, 0)
        };
        if is_repo_root {
            let has_uncommitted_changes = match &git_status {
                Some(s) => !s.is_clean,
                None => false,
            };
            let status = match &git_status {
                Some(s) => if !s.is_clean {
                    if s.unstaged_files.len() > 0 || s.staged_files.len() > 0 {
                        RepoStatus::Dirty
                    } else {
                        RepoStatus::Untracked
                    }
                } else {
                    RepoStatus::Clean
                },
                None => RepoStatus::Clean,
            };
            let current_branch = match git_status {
                Some(s) => s.current_branch,
                None => None,
            };
            let remotes = remote_text(remotes);
            Repository {
                name,
                path,
                is_git_repo: true,
                has_uncommitted_changes,
                current_branch,
                remotes,
                last_commit_date: None,
                last_activity,
                status,
                size_bytes,
                commit_count: None,
                primary_language,
                total_lines,
                code_lines,
            }
        } else {
            Repository {
                name,
                path,
                is_git_repo: false,
                has_uncommitted_changes: false,
                current_branch: None,
                remotes: Vec::new(),
                last_commit_date: None,
                last_activity,
                status: RepoStatus::NoGit,
                size_bytes,
                commit_count: None,
                primary_language,
                total_lines,
                code_lines,
            }
        }
    }

    /// Whether a classified directory stays in the scan result.
    pub fn is_relevant(&self, repo: &Repository, has_project_indicators: bool) -> (r: bool)
        ensures
            r == relevant(*repo, has_project_indicators),
    {
        repo.is_git_repo || repo.code_lines >= MIN_CODE_LINES || has_project_indicators
    }

    /// Finishes a scan from the observed candidates, given in the order of
    /// `plan_scan`: classifies each, drops the irrelevant ones and orders the
    /// rest by name.
    pub fn complete_scan(&self, observed: Vec<(String, DirectoryFacts)>) -> (r: Vec<Repository>)
        ensures
            scan_result(observed@, r@),
    {
        let ghost orig = observed@;
        let ghost ind = indicators_of(orig);
        let n = observed.len();
        let mut src = observed;
        let mut kept: Vec<Repository> = Vec::new();
        let ghost mut cl: Seq<Repository> = Seq::empty();
        let mut i: usize = 0;
        while i < n
            invariant
                n == orig.len(),
                ind == indicators_of(orig),
                i <= n,
                src@ == orig.subrange(i as int, n as int),
                cl.len() == i,
                forall|k: int| 0 <= k < i ==> classifies(orig[k].0@, orig[k].1, #[trigger] cl[k]),
                kept@ == kept_of(cl, ind),
            decreases n - i,
        {
            assert(src@[0] == orig[i as int]);
            let (path, facts) = src.remove(0);
            assert(src@ =~= orig.subrange(i + 1, n as int));
            let has_ind = facts.has_project_indicators;
            let repo = self.analyze_directory(path, facts);
            proof {
                let c2 = cl.push(repo);
                assert(c2.drop_last() == cl);
                assert(ind[i as int] == has_ind);
            }
            if self.is_relevant(&repo, has_ind) {
                kept.push(repo);
            }
            proof {
                cl = cl.push(repo);
            }
            i += 1;
        }
        let r = sort_by_name(kept);
        assert(scan_result(orig, r@));
        r
    }

    /// Scans below `base`: plans the candidates, hands each to `observe`
    /// with its position (from 1) and the number of candidates, which reports
    /// progress and returns what was observed of it, then finishes the scan
    /// from those observations.
    pub fn scan_directory_with_progress<F: Fn(&String, usize, usize) -> DirectoryFacts>(
        &self,
        base: &str,
        base_is_repo: bool,
        entries: &Vec<WalkEntry>,
        observe: F,
    ) -> (r: Vec<Repository>)
        requires
            forall|p: &String, k: usize, n: usize| observe.requires((p, k, n)),
        ensures
            exists|observed: Seq<(String, DirectoryFacts)>|
                {
                    &&& observed.map_values(|o: (String, DirectoryFacts)| o.0@) == candidate_paths(base@, base_is_repo, entries@)
                    &&& forall|i: int|
                        0 <= i < observed.len() ==> observe.ensures(
                            (&observed[i].0, (i + 1) as usize, observed.len() as usize),
                            #[trigger] observed[i].1,
                        )
                    &&& scan_result(observed, r@)
                },
    {
        let plan = self.plan_scan(base, base_is_repo, entries);
        let total = plan.len();
        let mut observed: Vec<(String, DirectoryFacts)> = Vec::new();
        let mut i: usize = 0;
        while i < total
            invariant
                total == plan@.len(),
                forall|p: &String, k: usize, n: usize| observe.requires((p, k, n)),
                i <= total,
                observed@.len() == i,
                forall|k: int| 0 <= k < i ==> (#[trigger] observed@[k]).0 == plan@[k],
                forall|k: int|
                    0 <= k < i ==> observe.ensures((&observed@[k].0, (k + 1) as usize, total), #[trigger] observed@[k].1),
            decreases total - i,
        {
            let path = plan[i].clone();
            let facts = observe(&path, i + 1, total);
            observed.push((path, facts));
            i += 1;
        }
        let ghost obs = observed@;
        assert(obs.map_values(|o: (String, DirectoryFacts)| o.0@) =~= views_of(plan@));
        let r = self.complete_scan(observed);
        assert(forall|k: int| 0 <= k < obs.len() ==> observe.ensures((&obs[k].0, (k + 1) as usize, obs.len() as usize), #[trigger] obs[k].1));
        r
    }

    /// Whether a directory of this size is profiled for languages.
    pub fn needs_language_profile(&self, size_bytes: u64, is_repo_root: bool) -> (r: bool)
        ensures
            r == !profile_skipped(size_bytes, is_repo_root),
    {
        !(size_bytes > LARGE_DIRECTORY_BYTES && !is_repo_root)
    }
}

} // verus!
