use vstd::prelude::*;
use crate::model::{Repository, Timestamp, paths_of, views_of, same_repository, lemma_push_contains};
use crate::checksums::Checksums;
use crate::clock::current_time;
use crate::text::contains_text;

verus! {

/// The format tag written into every cache record; a record with another tag
/// is not used.
pub const CACHE_VERSION: &'static str = "1.0.0";

/// A classified directory as it is kept in the cache.
#[derive(Clone, Debug)]
pub struct CachedRepository {
    pub repository: Repository,
    pub cached_at: Timestamp,
    pub git_head_sha: Option<String>,
    pub last_modified: Option<Timestamp>,
    pub is_stale: bool,
}

/// The persisted result of the last scans. `repositories` holds one entry
/// per path.
#[derive(Debug)]
pub struct CacheData {
    pub version: String,
    pub last_scan: Timestamp,
    pub scanned_paths: Vec<String>,
    pub repositories: Vec<CachedRepository>,
    pub checksums: Checksums,
    pub total_repos: usize,
    pub total_git_repos: usize,
    pub total_size_bytes: u64,
}

/// Division rounding toward zero.
pub open spec fn trunc_div(a: int, b: int) -> int {
    if a >= 0 {
        a / b
    } else {
        -((-a) / b)
    }
}

pub open spec fn elapsed_nanos(from: Timestamp, to: Timestamp) -> int {
    (to.secs - from.secs) * 1_000_000_000 + (to.nanos - from.nanos)
}

/// The whole hours from `from` to `to`, negative when `to` is earlier.
pub open spec fn elapsed_whole_hours(from: Timestamp, to: Timestamp) -> int {
    trunc_div(trunc_div(elapsed_nanos(from, to), 1_000_000_000), 3600)
}

fn div_toward_zero(a: i128, b: i128) -> (r: i128)
    requires
        b > 0,
        a > i128::MIN,
    ensures
        r == trunc_div(a as int, b as int),
{
    if a >= 0 {
        a / b
    } else {
        let q = (-a) / b;
        -q
    }
}

impl CachedRepository {
    /// An entry for `repository` cached at `now`.
    pub fn new_at(repository: Repository, git_head_sha: Option<String>, now: Timestamp) -> (r: Self)
        ensures
            r.repository == repository,
            r.cached_at == now,
            r.git_head_sha == git_head_sha,
            r.last_modified is None,
            !r.is_stale,
    {
        CachedRepository { repository, cached_at: now, git_head_sha, last_modified: None, is_stale: false }
    }

    /// An entry for `repository` cached now.
    pub fn new(repository: Repository, git_head_sha: Option<String>) -> (r: Self)
        ensures
            r.repository == repository,
            r.git_head_sha == git_head_sha,
            r.last_modified is None,
            !r.is_stale,
    {
        Self::new_at(repository, git_head_sha, current_time())
    }

    /// Whether more than `max_age_hours` whole hours lie between the caching
    /// time of this entry and `now`.
    pub fn is_stale_at(&self, now: Timestamp, max_age_hours: u32) -> (r: bool)
        ensures
            r == (elapsed_whole_hours(self.cached_at, now) > max_age_hours),
    {
        let ds: i128 = now.secs as i128 - self.cached_at.secs as i128;
        let dn: i128 = now.nanos as i128 - self.cached_at.nanos as i128;
        assert(-0x1_0000_0000_0000_0000 <= ds <= 0x1_0000_0000_0000_0000);
        assert(-0x1_0000_0000_0000_0000 * 1_000_000_000 <= ds * 1_000_000_000 <= 0x1_0000_0000_0000_0000
            * 1_000_000_000) by (nonlinear_arith)
            requires
                -0x1_0000_0000_0000_0000 <= ds <= 0x1_0000_0000_0000_0000,
        ;
        let total: i128 = ds * 1_000_000_000 + dn;
        let secs = div_toward_zero(total, 1_000_000_000);
        assert(-0x1_0000_0000_0000_0000 * 2 <= secs <= 0x1_0000_0000_0000_0000 * 2);
        let hours = div_toward_zero(secs, 3600);
        hours > max_age_hours as i128
    }

    /// Whether this entry is older than `max_age_hours` whole hours at the
    /// time the system clock reads now; `is_stale_at` states the rule.
    pub fn is_stale(&self, max_age_hours: u32) -> (r: bool) {
        let now = current_time();
        self.is_stale_at(now, max_age_hours)
    }
}

impl CacheData {
    /// The record holds one entry per path.
    pub open spec fn well_formed(&self) -> bool {
        cached_paths(self.repositories@).no_duplicates()
    }
}

impl Default for CacheData {
    /// An empty record of this version, made now.
    fn default() -> (r: Self)
        ensures
            r.version@ == CACHE_VERSION@,
            r.scanned_paths@.len() == 0,
            r.repositories@.len() == 0,
            r.checksums@ == Map::<Seq<char>, Seq<char>>::empty(),
            r.total_repos == 0,
            r.total_git_repos == 0,
            r.total_size_bytes == 0,
            r.well_formed(),
    {
        assert(cached_paths(Seq::<CachedRepository>::empty()) =~= Seq::<Seq<char>>::empty());
        CacheData {
            version: CACHE_VERSION.to_string(),
            last_scan: current_time(),
            scanned_paths: Vec::new(),
            repositories: Vec::new(),
            checksums: Checksums::new(),
            total_repos: 0,
            total_git_repos: 0,
            total_size_bytes: 0,
        }
    }
}

pub open spec fn cached_paths(cs: Seq<CachedRepository>) -> Seq<Seq<char>> {
    cs.map_values(|c: CachedRepository| c.repository.path@)
}

pub open spec fn repositories_of(cs: Seq<CachedRepository>) -> Seq<Repository> {
    cs.map_values(|c: CachedRepository| c.repository)
}

/// The cached token of `c` is absent or differs from `token`.
pub open spec fn token_differs(c: CachedRepository, token: Seq<char>) -> bool {
    match c.git_head_sha {
        Some(s) => s@ != token,
        None => true,
    }
}

/// A cached entry is stale when its path has no fresh token, or its cached
/// token is absent or differs from the fresh one.
pub open spec fn stale_entry(c: CachedRepository, fresh: Map<Seq<char>, Seq<char>>) -> bool {
    !fresh.contains_key(c.repository.path@) || token_differs(c, fresh[c.repository.path@])
}

pub open spec fn stale_cached_paths(cs: Seq<CachedRepository>, fresh: Map<Seq<char>, Seq<char>>) -> Seq<Seq<char>>
    decreases cs.len(),
{
    if cs.len() == 0 {
        Seq::empty()
    } else {
        let rest = stale_cached_paths(cs.drop_last(), fresh);
        if stale_entry(cs.last(), fresh) {
            rest.push(cs.last().repository.path@)
        } else {
            rest
        }
    }
}

/// The keys that `known` does not hold, in order.
pub open spec fn new_paths(keys: Seq<Seq<char>>, known: Seq<Seq<char>>) -> Seq<Seq<char>>
    decreases keys.len(),
{
    if keys.len() == 0 {
        Seq::empty()
    } else {
        let rest = new_paths(keys.drop_last(), known);
        if !known.contains(keys.last()) {
            rest.push(keys.last())
        } else {
            rest
        }
    }
}

/// The stale paths: the stale cached entries in cache order, then the fresh
/// paths the cache does not hold, in the checksum map's order.
pub open spec fn stale_paths(cs: Seq<CachedRepository>, fresh: Checksums) -> Seq<Seq<char>> {
    stale_cached_paths(cs, fresh@) + new_paths(fresh.key_order(), cached_paths(cs))
}

/// A loaded record is used when its format tag is this version's.
pub open spec fn accepted_record(loaded: Option<CacheData>) -> Option<CacheData> {
    match loaded {
        Some(d) => if d.version@ == CACHE_VERSION@ {
            Some(d)
        } else {
            None
        },
        None => None,
    }
}

/// `incoming` added to `existing` by path: an incoming entry whose path is
/// already present is dropped.
pub open spec fn merged(existing: Seq<Repository>, incoming: Seq<Repository>) -> Seq<Repository>
    decreases incoming.len(),
{
    if incoming.len() == 0 {
        existing
    } else {
        let m = merged(existing, incoming.drop_last());
        if paths_of(m).contains(incoming.last().path@) {
            m
        } else {
            m.push(incoming.last())
        }
    }
}

/// `b` added to `a`, leaving out what is already present.
pub open spec fn union_paths(a: Seq<Seq<char>>, b: Seq<Seq<char>>) -> Seq<Seq<char>>
    decreases b.len(),
{
    if b.len() == 0 {
        a
    } else {
        let m = union_paths(a, b.drop_last());
        if m.contains(b.last()) {
            m
        } else {
            m.push(b.last())
        }
    }
}

/// What a save writes: in add mode with an earlier record, the earlier
/// repositories with the new ones added by path and the scanned roots
/// united; otherwise the new scan alone.
pub open spec fn contents_for_save(
    add_mode: bool,
    existing: Option<CacheData>,
    scanned: Seq<Repository>,
    root: Seq<char>,
) -> (Seq<Repository>, Seq<Seq<char>>) {
    match existing {
        Some(d) => if add_mode {
            (merged(repositories_of(d.repositories@), scanned), union_paths(seq![root], views_of(d.scanned_paths@)))
        } else {
            (scanned, seq![root])
        },
        None => (scanned, seq![root]),
    }
}

pub open spec fn count_git(s: Seq<Repository>) -> nat
    decreases s.len(),
{
    if s.len() == 0 {
        0
    } else {
        count_git(s.drop_last()) + if s.last().is_git_repo {
            1nat
        } else {
            0nat
        }
    }
}

pub open spec fn sum_sizes(s: Seq<Repository>) -> nat
    decreases s.len(),
{
    if s.len() == 0 {
        0
    } else {
        sum_sizes(s.drop_last()) + s.last().size_bytes as nat
    }
}

/// `c` is the cache entry of `r` made at `now` with the token `fresh` holds
/// for its path.
pub open spec fn entry_of(c: CachedRepository, r: Repository, fresh: Map<Seq<char>, Seq<char>>, now: Timestamp) -> bool {
    &&& c.repository == r
    &&& c.cached_at == now
    &&& c.last_modified is None
    &&& !c.is_stale
    &&& if fresh.contains_key(r.path@) {
        c.git_head_sha is Some && c.git_head_sha->0@ == fresh[r.path@]
    } else {
        c.git_head_sha is None
    }
}

/// `cs` holds one entry per path of `s`, made from the last repository of `s`
/// with that path.
pub open spec fn keyed_entries(
    cs: Seq<CachedRepository>,
    s: Seq<Repository>,
    fresh: Map<Seq<char>, Seq<char>>,
    now: Timestamp,
) -> bool {
    &&& cached_paths(cs).no_duplicates()
    &&& forall|p: Seq<char>| cached_paths(cs).contains(p) <==> #[trigger] paths_of(s).contains(p)
    &&& forall|k: int|
        0 <= k < cs.len() ==> exists|i: int|
            0 <= i < s.len() && entry_of(#[trigger] cs[k], s[i], fresh, now) && forall|j: int|
                i < j < s.len() ==> (#[trigger] s[j]).path@ != s[i].path@
}

fn contains_path(v: &Vec<Repository>, p: &String) -> (r: bool)
    ensures
        r == paths_of(v@).contains(p@),
{
    let mut i: usize = 0;
    while i < v.len()
        invariant
            i <= v.len(),
            forall|k: int| 0 <= k < i ==> (#[trigger] v@[k]).path@ != p@,
        decreases v.len() - i,
    {
        if v[i].path == *p {
            assert(paths_of(v@)[i as int] == p@);
            return true;
        }
        i += 1;
    }
    proof {
        if paths_of(v@).contains(p@) {
            let k = choose|k: int| 0 <= k < paths_of(v@).len() && paths_of(v@)[k] == p@;
            assert(v@[k].path@ == p@);
        }
    }
    false
}

/// Adds `incoming` to `existing` by path; an incoming repository whose path
/// is already present is dropped.
pub fn merge_repositories(existing: Vec<Repository>, incoming: Vec<Repository>) -> (r: Vec<Repository>)
    ensures
        r@ == merged(existing@, incoming@),
{
    let ghost inc = incoming@;
    let n = incoming.len();
    let mut r = existing;
    let mut src = incoming;
    let mut i: usize = 0;
    while i < n
        invariant
            n == inc.len(),
            i <= n,
            src@ == inc.subrange(i as int, n as int),
            r@ == merged(existing@, inc.take(i as int)),
        decreases n - i,
    {
        assert(src@[0] == inc[i as int]);
        let x = src.remove(0);
        assert(src@ =~= inc.subrange(i + 1, n as int));
        assert(inc.take(i + 1).drop_last() == inc.take(i as int));
        assert(inc.take(i + 1).last() == x);
        if !contains_path(&r, &x.path) {
            r.push(x);
        }
        i += 1;
    }
    assert(inc.take(n as int) == inc);
    r
}

/// The roots of `first` followed by those of `second` not already present.
pub fn union_scanned_paths(first: Vec<String>, second: Vec<String>) -> (r: Vec<String>)
    ensures
        views_of(r@) == union_paths(views_of(first@), views_of(second@)),
        forall|p: Seq<char>|
            #[trigger] views_of(r@).contains(p) <==> views_of(first@).contains(p) || views_of(second@).contains(p),
{
    let ghost sec = second@;
    let ghost a = views_of(first@);
    let n = second.len();
    let mut r = first;
    let mut src = second;
    let mut i: usize = 0;
    while i < n
        invariant
            n == sec.len(),
            i <= n,
            src@ == sec.subrange(i as int, n as int),
            views_of(r@) == union_paths(a, views_of(sec.take(i as int))),
            forall|p: Seq<char>|
                #[trigger] views_of(r@).contains(p) <==> a.contains(p) || views_of(sec.take(i as int)).contains(p),
        decreases n - i,
    {
        assert(src@[0] == sec[i as int]);
        let x = src.remove(0);
        assert(src@ =~= sec.subrange(i + 1, n as int));
        let ghost xv = x@;
        assert(views_of(sec.take(i + 1)) =~= views_of(sec.take(i as int)).push(xv));
        assert(views_of(sec.take(i + 1)).drop_last() == views_of(sec.take(i as int)));
        let ghost old_r = views_of(r@);
        let present = contains_text(&r, x.as_str());
        if !present {
            r.push(x);
            assert(views_of(r@) =~= old_r.push(xv));
        }
        assert(forall|p: Seq<char>| #[trigger] old_r.contains(p) <==> a.contains(p) || views_of(sec.take(i as int)).contains(p));
        assert forall|p: Seq<char>|
            #[trigger] views_of(r@).contains(p) <==> a.contains(p) || views_of(sec.take(i + 1)).contains(p) by {
            let t1 = views_of(sec.take(i + 1));
            let t0 = views_of(sec.take(i as int));
            let nr = views_of(r@);
            assert(t1 == t0.push(xv));
            assert(t1.contains(p) <==> t0.contains(p) || p == xv) by {
                if t1.contains(p) && p != xv {
                    let k = choose|k: int| 0 <= k < t1.len() && t1[k] == p;
                    assert(t0[k] == p);
                }
                if t0.contains(p) {
                    let k = choose|k: int| 0 <= k < t0.len() && t0[k] == p;
                    assert(t1[k] == p);
                }
                if p == xv {
                    assert(t1[i as int] == p);
                }
            }
            assert(old_r.contains(p) <==> a.contains(p) || t0.contains(p));
            assert(nr.contains(p) <==> old_r.contains(p) || p == xv) by {
                if present {
                    assert(nr == old_r);
                } else {
                    assert(nr == old_r.push(xv));
                    if nr.contains(p) && p != xv {
                        let k = choose|k: int| 0 <= k < nr.len() && nr[k] == p;
                        assert(old_r[k] == p);
                    }
                    if old_r.contains(p) {
                        let k = choose|k: int| 0 <= k < old_r.len() && old_r[k] == p;
                        assert(nr[k] == p);
                    }
                    if p == xv {
                        assert(nr[old_r.len() as int] == p);
                    }
                }
            }
        }
        i += 1;
    }
    assert(sec.take(n as int) == sec);
    r
}

pub proof fn lemma_entry_path(c: CachedRepository, r: Repository, fresh: Map<Seq<char>, Seq<char>>, now: Timestamp)
    requires
        entry_of(c, r, fresh, now),
    ensures
        c.repository.path@ == r.path@,
{
}

fn position_of_path(cs: &Vec<CachedRepository>, p: &String) -> (r: Option<usize>)
    ensures
        match r {
            Some(k) => k < cs@.len() && cs@[k as int].repository.path@ == p@,
            None => !cached_paths(cs@).contains(p@),
        },
{
    let mut i: usize = 0;
    while i < cs.len()
        invariant
            i <= cs@.len(),
            forall|k: int| 0 <= k < i ==> (#[trigger] cs@[k]).repository.path@ != p@,
        decreases cs@.len() - i,
    {
        if cs[i].repository.path == *p {
            return Some(i);
        }
        i += 1;
    }
    proof {
        if cached_paths(cs@).contains(p@) {
            let k = choose|k: int| 0 <= k < cached_paths(cs@).len() && cached_paths(cs@)[k] == p@;
            assert(cs@[k].repository.path@ == p@);
        }
    }
    None
}

/// Reads and writes the cache record and decides what goes into it.
pub struct CacheService;

impl CacheService {
    pub fn new() -> (r: Self) {
        CacheService
    }

    /// A record of `repositories` made at `now`: one entry per path, made from
    /// the last repository with that path and the token `checksums` holds for
    /// it, with the totals taken over `repositories`.
    pub fn create_cache_data_at(
        &self,
        repositories: Vec<Repository>,
        scanned_paths: Vec<String>,
        checksums: Checksums,
        now: Timestamp,
    ) -> (r: CacheData)
        ensures
            r.version@ == CACHE_VERSION@,
            r.last_scan == now,
            r.scanned_paths == scanned_paths,
            r.checksums == checksums,
            r.total_repos == repositories@.len(),
            r.total_git_repos == count_git(repositories@),
            r.total_size_bytes == if sum_sizes(repositories@) > u64::MAX {
                u64::MAX as nat
            } else {
                sum_sizes(repositories@)
            },
            keyed_entries(r.repositories@, repositories@, checksums@, now),
            r.well_formed(),
    {
        let ghost input = repositories@;
        let n = repositories.len();
        let mut git: usize = 0;
        let mut size: u64 = 0;
        let mut i: usize = 0;
        while i < n
            invariant
                n == input.len(),
                repositories@ == input,
                i <= n,
                git <= i,
                git == count_git(input.take(i as int)),
                size == if sum_sizes(input.take(i as int)) > u64::MAX {
                    u64::MAX as nat
                } else {
                    sum_sizes(input.take(i as int))
                },
            decreases n - i,
        {
            proof {
                assert(input.take(i + 1).drop_last() == input.take(i as int));
                assert(input.take(i + 1).last() == input[i as int]);
            }
            if repositories[i].is_git_repo {
                git += 1;
            }
            size = size.saturating_add(repositories[i].size_bytes);
            i += 1;
        }
        assert(input.take(n as int) == input);
        let mut src = repositories;
        let mut out: Vec<CachedRepository> = Vec::new();
        let mut i: usize = 0;
        while i < n
            invariant
                n == input.len(),
                i <= n,
                src@ == input.subrange(i as int, n as int),
                keyed_entries(out@, input.take(i as int), checksums@, now),
            decreases n - i,
        {
            assert(src@[0] == input[i as int]);
            let x = src.remove(0);
            assert(src@ =~= input.subrange(i + 1, n as int));
            let sha = checksums.get(&x.path);
            let pos = position_of_path(&out, &x.path);
            let c = CachedRepository::new_at(x, sha, now);
            let ghost t0 = input.take(i as int);
            let ghost t1 = input.take(i + 1);
            let ghost old_out = out@;
            assert(t1 == t0.push(x));
            assert(paths_of(t1) == paths_of(t0).push(x.path@));
            assert(entry_of(c, t1[i as int], checksums@, now));
            match pos {
                Some(k) => {
                    out.set(k, c);
                    proof {
                        assert(cached_paths(out@) =~= cached_paths(old_out));
                        assert forall|p: Seq<char>| cached_paths(out@).contains(p) <==> #[trigger] paths_of(t1).contains(p) by {
                            lemma_push_contains(paths_of(t0), x.path@, p);
                            assert(cached_paths(old_out).contains(p) <==> paths_of(t0).contains(p));
                            if p == x.path@ {
                                assert(cached_paths(old_out)[k as int] == p);
                            }
                        }
                        assert forall|q: int| 0 <= q < out@.len() implies exists|w: int|
                            0 <= w < t1.len() && entry_of(#[trigger] out@[q], t1[w], checksums@, now) && forall|j: int|
                                w < j < t1.len() ==> (#[trigger] t1[j]).path@ != t1[w].path@ by {
                            if q == k {
                                assert(entry_of(out@[q], t1[i as int], checksums@, now));
                            } else {
                                let w = choose|w: int|
                                    0 <= w < t0.len() && entry_of(#[trigger] old_out[q], t0[w], checksums@, now) && forall|j: int|
                                        w < j < t0.len() ==> (#[trigger] t0[j]).path@ != t0[w].path@;
                                lemma_entry_path(old_out[q], t0[w], checksums@, now);
                                assert(cached_paths(old_out)[q] != cached_paths(old_out)[k as int]);
                                assert(t1[w] == t0[w]);
                                assert(entry_of(out@[q], t1[w], checksums@, now));
                                assert forall|j: int| w < j < t1.len() implies (#[trigger] t1[j]).path@ != t1[w].path@ by {
                                    if j < i {
                                        assert(t1[j] == t0[j]);
                                    }
                                }
                            }
                        }
                    }
                },
                None => {
                    out.push(c);
                    proof {
                        assert(cached_paths(out@) =~= cached_paths(old_out).push(x.path@));
                        assert forall|p: Seq<char>| cached_paths(out@).contains(p) <==> #[trigger] paths_of(t1).contains(p) by {
                            lemma_push_contains(paths_of(t0), x.path@, p);
                            lemma_push_contains(cached_paths(old_out), x.path@, p);
                            assert(cached_paths(old_out).contains(p) <==> paths_of(t0).contains(p));
                        }
                        assert forall|q: int| 0 <= q < out@.len() implies exists|w: int|
                            0 <= w < t1.len() && entry_of(#[trigger] out@[q], t1[w], checksums@, now) && forall|j: int|
                                w < j < t1.len() ==> (#[trigger] t1[j]).path@ != t1[w].path@ by {
                            if q == old_out.len() {
                                assert(entry_of(out@[q], t1[i as int], checksums@, now));
                            } else {
                                let w = choose|w: int|
                                    0 <= w < t0.len() && entry_of(#[trigger] old_out[q], t0[w], checksums@, now) && forall|j: int|
                                        w < j < t0.len() ==> (#[trigger] t0[j]).path@ != t0[w].path@;
                                lemma_entry_path(old_out[q], t0[w], checksums@, now);
                                assert(cached_paths(old_out)[q] == t0[w].path@);
                                assert(t1[w] == t0[w]);
                                assert(entry_of(out@[q], t1[w], checksums@, now));
                                assert forall|j: int| w < j < t1.len() implies (#[trigger] t1[j]).path@ != t1[w].path@ by {
                                    if j < i {
                                        assert(t1[j] == t0[j]);
                                    } else {
                                        assert(cached_paths(old_out).contains(t0[w].path@));
                                    }
                                }
                            }
                        }
                    }
                },
            }
            i += 1;
        }
        assert(input.take(n as int) == input);
        CacheData {
            version: CACHE_VERSION.to_string(),
            last_scan: now,
            scanned_paths,
            repositories: out,
            checksums,
            total_repos: n,
            total_git_repos: git,
            total_size_bytes: size,
        }
    }

    /// A record of `repositories` made now; see `create_cache_data_at`.
    pub fn create_cache_data(
        &self,
        repositories: Vec<Repository>,
        scanned_paths: Vec<String>,
        checksums: Checksums,
    ) -> (r: CacheData)
        ensures
            r.version@ == CACHE_VERSION@,
            r.last_scan.nanos < 1_000_000_000,
            r.scanned_paths == scanned_paths,
            r.checksums == checksums,
            r.total_repos == repositories@.len(),
            r.total_git_repos == count_git(repositories@),
            r.total_size_bytes == if sum_sizes(repositories@) > u64::MAX {
                u64::MAX as nat
            } else {
                sum_sizes(repositories@)
            },
            keyed_entries(r.repositories@, repositories@, checksums@, r.last_scan),
            r.well_formed(),
    {
        let now = current_time();
        self.create_cache_data_at(repositories, scanned_paths, checksums, now)
    }

    /// Copies of the cached repositories, in cache order.
    pub fn extract_repositories(&self, cache_data: &CacheData) -> (r: Vec<Repository>)
        ensures
            r@.len() == cache_data.repositories@.len(),
            forall|i: int| 0 <= i < r@.len() ==> same_repository(#[trigger] r@[i], cache_data.repositories@[i].repository),
    {
        let mut r: Vec<Repository> = Vec::new();
        let mut i: usize = 0;
        while i < cache_data.repositories.len()
            invariant
                i <= cache_data.repositories@.len(),
                r@.len() == i,
                forall|k: int| 0 <= k < i ==> same_repository(#[trigger] r@[k], cache_data.repositories@[k].repository),
            decreases cache_data.repositories@.len() - i,
        {
            r.push(cache_data.repositories[i].repository.duplicate());
            i += 1;
        }
        r
    }

    /// The paths whose cached classification no longer holds: cached entries
    /// without a fresh token or whose token is absent or changed, then fresh
    /// paths the cache does not hold.
    pub fn find_stale_repositories(&self, cache_data: &CacheData, current_checksums: &Checksums) -> (r: Vec<String>)
        ensures
            views_of(r@) == stale_paths(cache_data.repositories@, *current_checksums),
    {
        let cs = &cache_data.repositories;
        let mut r: Vec<String> = Vec::new();
        let mut i: usize = 0;
        while i < cs.len()
            invariant
                i <= cs@.len(),
                views_of(r@) == stale_cached_paths(cs@.take(i as int), current_checksums@),
            decreases cs@.len() - i,
        {
            let c = &cs[i];
            proof {
                assert(cs@.take(i + 1).drop_last() == cs@.take(i as int));
                assert(cs@.take(i + 1).last() == cs@[i as int]);
            }
            let stale = match current_checksums.get(&c.repository.path) {
                None => true,
                Some(t) => match &c.git_head_sha {
                    Some(s) => *s != t,
                    None => true,
                },
            };
            if stale {
                let ghost old_r = views_of(r@);
                r.push(c.repository.path.clone());
                assert(views_of(r@) =~= old_r.push(c.repository.path@));
            }
            i += 1;
        }
        assert(cs@.take(cs@.len() as int) == cs@);
        let ghost first = views_of(r@);
        let ghost keys = current_checksums.key_order();
        let mut j: usize = 0;
        while j < current_checksums.len()
            invariant
                j <= keys.len(),
                keys == current_checksums.key_order(),
                views_of(r@) == first + new_paths(keys.take(j as int), cached_paths(cs@)),
            decreases keys.len() - j,
        {
            let (k, _) = current_checksums.entry(j);
            proof {
                assert(keys.take(j + 1).drop_last() == keys.take(j as int));
                assert(keys.take(j + 1).last() == k@);
            }
            let ghost prev = new_paths(keys.take(j as int), cached_paths(cs@));
            let found = position_of_path(cs, k);
            if found.is_none() {
                let ghost old_r = views_of(r@);
                r.push(k.clone());
                assert(views_of(r@) =~= old_r.push(k@));
                assert(new_paths(keys.take(j + 1), cached_paths(cs@)) == prev.push(k@));
                assert(first + prev.push(k@) =~= (first + prev).push(k@));
            } else {
                assert(cached_paths(cs@)[found->0 as int] == k@);
                assert(new_paths(keys.take(j + 1), cached_paths(cs@)) == prev);
            }
            j += 1;
        }
        assert(keys.take(keys.len() as int) == keys);
        r
    }

    /// The record as loaded: kept when its format tag is this version's, else
    /// treated as absent.
    pub fn check_loaded(&self, loaded: Option<CacheData>) -> (r: Option<CacheData>)
        ensures
            r == accepted_record(loaded),
    {
        match loaded {
            Some(d) => {
                let v = CACHE_VERSION.to_string();
                if d.version == v {
                    Some(d)
                } else {
                    None
                }
            },
            None => None,
        }
    }

    /// What a save writes after a scan of `root` that found `scanned`: see
    /// `contents_for_save`.
    pub fn contents_to_save(
        &self,
        add_mode: bool,
        existing: Option<CacheData>,
        scanned: Vec<Repository>,
        root: String,
    ) -> (r: (Vec<Repository>, Vec<String>))
        ensures
            r.0@ == contents_for_save(add_mode, existing, scanned@, root@).0,
            views_of(r.1@) == contents_for_save(add_mode, existing, scanned@, root@).1,
    {
        let ghost rv = root@;
        let roots = vec![root];
        assert(views_of(roots@) =~= seq![rv]);
        match existing {
            Some(d) => {
                if add_mode {
                    let ghost dd = d;
                    let CacheData { repositories, scanned_paths, .. } = d;
                    let earlier = into_repositories(repositories);
                    (merge_repositories(earlier, scanned), union_scanned_paths(roots, scanned_paths))
                } else {
                    (scanned, roots)
                }
            },
            None => (scanned, roots),
        }
    }
}

fn into_repositories(cs: Vec<CachedRepository>) -> (r: Vec<Repository>)
    ensures
        r@ == repositories_of(cs@),
{
    let ghost input = cs@;
    let n = cs.len();
    let mut src = cs;
    let mut r: Vec<Repository> = Vec::new();
    let mut i: usize = 0;
    while i < n
        invariant
            n == input.len(),
            i <= n,
            src@ == input.subrange(i as int, n as int),
            r@ == repositories_of(input.take(i as int)),
        decreases n - i,
    {
        assert(src@[0] == input[i as int]);
        let c = src.remove(0);
        assert(src@ =~= input.subrange(i + 1, n as int));
        r.push(c.repository);
        assert(repositories_of(input.take(i + 1)) =~= repositories_of(input.take(i as int)).push(input[i as int].repository));
        i += 1;
    }
    assert(input.take(n as int) == input);
    r
}

pub proof fn lemma_stale_cached_contains(cs: Seq<CachedRepository>, fresh: Map<Seq<char>, Seq<char>>, p: Seq<char>)
    ensures
        stale_cached_paths(cs, fresh).contains(p) <==> exists|i: int|
            0 <= i < cs.len() && (#[trigger] cs[i]).repository.path@ == p && stale_entry(cs[i], fresh),
    decreases cs.len(),
{
    if cs.len() > 0 {
        let d = cs.drop_last();
        lemma_stale_cached_contains(d, fresh, p);
        let rest = stale_cached_paths(d, fresh);
        if stale_cached_paths(cs, fresh).contains(p) {
            let k = choose|k: int| 0 <= k < stale_cached_paths(cs, fresh).len() && stale_cached_paths(cs, fresh)[k] == p;
            if k < rest.len() {
                assert(rest[k] == p);
                let i = choose|i: int| 0 <= i < d.len() && (#[trigger] d[i]).repository.path@ == p && stale_entry(d[i], fresh);
                assert(cs[i] == d[i]);
            } else {
                assert(cs[cs.len() - 1].repository.path@ == p);
            }
        }
        if exists|i: int| 0 <= i < cs.len() && (#[trigger] cs[i]).repository.path@ == p && stale_entry(cs[i], fresh) {
            let i = choose|i: int| 0 <= i < cs.len() && (#[trigger] cs[i]).repository.path@ == p && stale_entry(cs[i], fresh);
            if i < cs.len() - 1 {
                assert(d[i] == cs[i]);
                let k = choose|k: int| 0 <= k < rest.len() && rest[k] == p;
                assert(stale_cached_paths(cs, fresh)[k] == p);
            } else {
                assert(stale_cached_paths(cs, fresh)[rest.len() as int] == p);
            }
        }
    }
}

pub proof fn lemma_new_paths_contains(keys: Seq<Seq<char>>, known: Seq<Seq<char>>, p: Seq<char>)
    ensures
        new_paths(keys, known).contains(p) <==> keys.contains(p) && !known.contains(p),
    decreases keys.len(),
{
    if keys.len() > 0 {
        let d = keys.drop_last();
        lemma_new_paths_contains(d, known, p);
        let rest = new_paths(d, known);
        let all = new_paths(keys, known);
        if all.contains(p) {
            let k = choose|k: int| 0 <= k < all.len() && all[k] == p;
            if k < rest.len() {
                assert(rest[k] == p);
                let j = choose|j: int| 0 <= j < d.len() && d[j] == p;
                assert(keys[j] == p);
            } else {
                assert(keys[keys.len() - 1] == p);
            }
        }
        if keys.contains(p) && !known.contains(p) {
            let j = choose|j: int| 0 <= j < keys.len() && keys[j] == p;
            if j < keys.len() - 1 {
                assert(d[j] == p);
                let k = choose|k: int| 0 <= k < rest.len() && rest[k] == p;
                assert(all[k] == p);
            } else {
                assert(all[rest.len() as int] == p);
            }
        }
    }
}

/// Staleness is total: a path is reported stale exactly when it is cached
/// and its fresh token differs from the cached one (or nothing was cached for
/// it), when it is cached but has no fresh token, or when it has a fresh token
/// but is not cached.
pub proof fn lemma_staleness_totality(cs: Seq<CachedRepository>, fresh: Checksums, p: Seq<char>)
    ensures
        stale_paths(cs, fresh).contains(p) <==> {
            ||| exists|i: int|
                0 <= i < cs.len() && (#[trigger] cs[i]).repository.path@ == p && fresh@.contains_key(p)
                    && token_differs(cs[i], fresh@[p])
            ||| (cached_paths(cs).contains(p) && !fresh@.contains_key(p))
            ||| (fresh@.contains_key(p) && !cached_paths(cs).contains(p))
        },
{
    let a = stale_cached_paths(cs, fresh@);
    let b = new_paths(fresh.key_order(), cached_paths(cs));
    lemma_stale_cached_contains(cs, fresh@, p);
    lemma_new_paths_contains(fresh.key_order(), cached_paths(cs), p);
    fresh.lemma_key_order(p);
    let ab = a + b;
    assert(ab.contains(p) <==> a.contains(p) || b.contains(p)) by {
        if ab.contains(p) {
            let k = choose|k: int| 0 <= k < ab.len() && ab[k] == p;
            if k < a.len() {
                assert(a[k] == p);
            } else {
                assert(b[k - a.len()] == p);
            }
        }
        if a.contains(p) {
            let k = choose|k: int| 0 <= k < a.len() && a[k] == p;
            assert(ab[k] == p);
        }
        if b.contains(p) {
            let k = choose|k: int| 0 <= k < b.len() && b[k] == p;
            assert(ab[a.len() + k] == p);
        }
    }
    if cached_paths(cs).contains(p) {
        let k = choose|k: int| 0 <= k < cached_paths(cs).len() && cached_paths(cs)[k] == p;
        assert(cs[k].repository.path@ == p);
    }
    if exists|i: int| 0 <= i < cs.len() && (#[trigger] cs[i]).repository.path@ == p {
        let i = choose|i: int| 0 <= i < cs.len() && (#[trigger] cs[i]).repository.path@ == p;
        assert(cached_paths(cs)[i] == p);
    }
}

/// Adding by path keeps every earlier entry in its place, as the only entry
/// for its path: an incoming entry with a path already present is dropped.
pub proof fn lemma_merge_keeps_existing(existing: Seq<Repository>, incoming: Seq<Repository>, i: int)
    requires
        paths_of(existing).no_duplicates(),
        0 <= i < existing.len(),
    ensures
        merged(existing, incoming).len() >= existing.len(),
        merged(existing, incoming)[i] == existing[i],
        forall|k: int|
            0 <= k < merged(existing, incoming).len() && (#[trigger] merged(existing, incoming)[k]).path@
                == existing[i].path@ ==> k == i,
    decreases incoming.len(),
{
    if incoming.len() == 0 {
        assert forall|k: int|
            0 <= k < existing.len() && (#[trigger] existing[k]).path@ == existing[i].path@ implies k == i by {
            if k != i {
                assert(paths_of(existing)[k] == paths_of(existing)[i]);
            }
        }
    } else {
        let m = merged(existing, incoming.drop_last());
        lemma_merge_keeps_existing(existing, incoming.drop_last(), i);
        let x = incoming.last();
        if !paths_of(m).contains(x.path@) {
            assert(paths_of(m)[i] == existing[i].path@);
            assert(x.path@ != existing[i].path@);
            let r = m.push(x);
            assert forall|k: int| 0 <= k < r.len() && (#[trigger] r[k]).path@ == existing[i].path@ implies k == i by {
                if k < m.len() {
                    assert(r[k] == m[k]);
                }
            }
        }
    }
}

/// The load check passes a record written by this version through
/// unchanged; reading and parsing the file are not covered here.
pub proof fn lemma_record_round_trip(record: CacheData)
    requires
        record.version@ == CACHE_VERSION@,
    ensures
        accepted_record(Some(record)) == Some(record),
{
}

} // verus!
