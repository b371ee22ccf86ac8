use vstd::prelude::*;
use crate::model::{Repository, same_repository};
use crate::cache::{count_git, sum_sizes};
use crate::scan::RepositoryService;
use crate::text::capped;

verus! {

/// The number of entries listed as largest and as most active.
pub const TOP_LIST_LEN: usize = 10;

/// The number of entries listed as needing attention.
pub const ATTENTION_LIST_LEN: usize = 20;

/// Aggregate figures over a scan result.
#[derive(Clone, Debug)]
pub struct DirectoryStats {
    pub total_directories: usize,
    pub git_repositories: usize,
    pub non_git_directories: usize,
    pub repositories_with_changes: usize,
    pub repositories_with_remotes: usize,
    pub total_size_bytes: u64,
    pub largest_repos: Vec<Repository>,
    pub most_active_repos: Vec<Repository>,
    pub repos_needing_attention: Vec<Repository>,
}

/// The ranking key of an entry: its size, or its last activity (the epoch
/// when unknown).
pub open spec fn key_of(r: Repository, by_size: bool) -> (int, int) {
    if by_size {
        (r.size_bytes as int, 0)
    } else {
        match r.last_activity {
            Some(t) => (t.secs as int, t.nanos as int),
            None => (0, 0),
        }
    }
}

pub open spec fn key_gt(a: (int, int), b: (int, int)) -> bool {
    a.0 > b.0 || (a.0 == b.0 && a.1 > b.1)
}

/// Entry `i` of `s` ranks before entry `j`: a greater key, or an equal key
/// and listed earlier.
pub open spec fn ranks_before(s: Seq<Repository>, by_size: bool, i: int, j: int) -> bool {
    key_gt(key_of(s[i], by_size), key_of(s[j], by_size)) || (key_of(s[i], by_size) == key_of(s[j], by_size) && i < j)
}

/// `output` is `input` ordered by descending key, ties in input order; `p`
/// gives the input position of each output entry.
pub open spec fn is_rank_order(input: Seq<Repository>, output: Seq<Repository>, by_size: bool, p: Seq<int>) -> bool {
    &&& p.len() == input.len()
    &&& output.len() == input.len()
    &&& forall|k: int| 0 <= k < p.len() ==> 0 <= #[trigger] p[k] < input.len() && same_repository(output[k], input[p[k]])
    &&& forall|j: int| 0 <= j < input.len() ==> #[trigger] p.contains(j)
    &&& forall|k1: int, k2: int| 0 <= k1 < k2 < p.len() ==> ranks_before(input, by_size, #[trigger] p[k1], #[trigger] p[k2])
}

/// `top` is the first `n` entries (all, when fewer) of `input` ranked by key.
pub open spec fn is_top(input: Seq<Repository>, by_size: bool, n: nat, top: Seq<Repository>) -> bool {
    exists|ordered: Seq<Repository>, p: Seq<int>|
        is_rank_order(input, ordered, by_size, p) && top == ordered.take(
            if ordered.len() < n {
                ordered.len() as int
            } else {
                n as int
            },
        )
}

pub open spec fn count_where(s: Seq<Repository>, pred: spec_fn(Repository) -> bool) -> nat
    decreases s.len(),
{
    if s.len() == 0 {
        0
    } else {
        count_where(s.drop_last(), pred) + if pred(s.last()) {
            1nat
        } else {
            0nat
        }
    }
}

/// A repository needs attention when it has uncommitted changes or no remote.
pub open spec fn needs_attention(r: Repository) -> bool {
    r.is_git_repo && (r.has_uncommitted_changes || r.remotes@.len() == 0)
}

pub open spec fn attention_list(s: Seq<Repository>) -> Seq<Repository>
    decreases s.len(),
{
    if s.len() == 0 {
        Seq::empty()
    } else {
        let rest = attention_list(s.drop_last());
        if needs_attention(s.last()) {
            rest.push(s.last())
        } else {
            rest
        }
    }
}

fn key(r: &Repository, by_size: bool) -> (k: (i128, i128))
    ensures
        k.0 as int == key_of(*r, by_size).0,
        k.1 as int == key_of(*r, by_size).1,
{
    if by_size {
        (r.size_bytes as i128, 0)
    } else {
        match r.last_activity {
            Some(t) => (t.secs as i128, t.nanos as i128),
            None => (0, 0),
        }
    }
}

fn outranks(kx: (i128, i128), r: &Repository, by_size: bool) -> (b: bool)
    ensures
        b == key_gt((kx.0 as int, kx.1 as int), key_of(*r, by_size)),
{
    let ko = key(r, by_size);
    kx.0 > ko.0 || (kx.0 == ko.0 && kx.1 > ko.1)
}

/// The first `n` entries of copies of `v` ranked by key.
fn top_by(v: &Vec<Repository>, by_size: bool, n: usize) -> (r: Vec<Repository>)
    ensures
        is_top(v@, by_size, n as nat, r@),
{
    let ghost input = v@;
    let len = v.len();
    let mut out: Vec<Repository> = Vec::new();
    let ghost mut p: Seq<int> = Seq::empty();
    let mut i: usize = 0;
    while i < len
        invariant
            len == input.len(),
            input == v@,
            i <= len,
            out@.len() == i,
            p.len() == i,
            forall|k: int| 0 <= k < i ==> 0 <= #[trigger] p[k] < i && same_repository(out@[k], input[p[k]]),
            forall|j: int| 0 <= j < i ==> #[trigger] p.contains(j),
            forall|k1: int, k2: int| 0 <= k1 < k2 < i ==> ranks_before(input, by_size, #[trigger] p[k1], #[trigger] p[k2]),
        decreases len - i,
    {
        let x = v[i].duplicate();
        let kx = key(&x, by_size);
        let mut pos: usize = 0;
        while pos < out.len() && !outranks(kx, &out[pos], by_size)
            invariant
                pos <= out@.len(),
                out@.len() == i,
                kx.0 as int == key_of(x, by_size).0,
                kx.1 as int == key_of(x, by_size).1,
                forall|k: int| 0 <= k < pos ==> !key_gt(key_of(x, by_size), key_of(#[trigger] out@[k], by_size)),
            decreases i - pos,
        {
            pos += 1;
        }
        proof {
            assert(key_of(x, by_size) == key_of(input[i as int], by_size));
            assert forall|k: int| 0 <= k < i implies key_of(#[trigger] out@[k], by_size) == key_of(input[p[k]], by_size) by {
                assert(same_repository(out@[k], input[p[k]]));
            }
            let q = p.insert(pos as int, i as int);
            if pos < i {
                assert forall|k: int| pos <= k < i implies ranks_before(input, by_size, i as int, #[trigger] p[k]) by {
                    if k > pos {
                        assert(ranks_before(input, by_size, p[pos as int], p[k]));
                    }
                }
            }
            assert forall|k1: int, k2: int| 0 <= k1 < k2 < i + 1 implies ranks_before(input, by_size, #[trigger] q[k1], #[trigger] q[k2]) by {
                if k1 < pos && k2 < pos {
                    assert(q[k1] == p[k1] && q[k2] == p[k2]);
                } else if k1 < pos && k2 == pos {
                    assert(q[k1] == p[k1] && q[k2] == i);
                } else if k1 < pos {
                    assert(q[k1] == p[k1] && q[k2] == p[k2 - 1]);
                } else if k1 == pos {
                    assert(q[k1] == i && q[k2] == p[k2 - 1]);
                } else {
                    assert(q[k1] == p[k1 - 1] && q[k2] == p[k2 - 1]);
                }
            }
            assert forall|j: int| 0 <= j < i + 1 implies #[trigger] q.contains(j) by {
                if j == i {
                    assert(q[pos as int] == j);
                } else {
                    assert(p.contains(j));
                    let k = choose|k: int| 0 <= k < p.len() && p[k] == j;
                    if k < pos {
                        assert(q[k] == j);
                    } else {
                        assert(q[k + 1] == j);
                    }
                }
            }
        }
        let ghost old_out = out@;
        out.insert(pos, x);
        proof {
            let q = p.insert(pos as int, i as int);
            assert forall|k: int| 0 <= k < i + 1 implies 0 <= #[trigger] q[k] < i + 1 && same_repository(out@[k], input[q[k]]) by {
                if k < pos {
                    assert(out@[k] == old_out[k]);
                } else if k > pos {
                    assert(out@[k] == old_out[k - 1]);
                }
            }
            p = q;
        }
        i += 1;
    }
    let ghost ordered = out@;
    assert(is_rank_order(input, ordered, by_size, p));
    let keep: usize = if out.len() < n {
        out.len()
    } else {
        n
    };
    out.truncate(keep);
    assert(out@ == ordered.take(keep as int));
    out
}

impl RepositoryService {
    /// Counts, totals and short lists over a scan result.
    pub fn get_directory_stats(&self, repos: &Vec<Repository>) -> (r: DirectoryStats)
        ensures
            r.total_directories == repos@.len(),
            r.git_repositories == count_git(repos@),
            r.non_git_directories == repos@.len() - count_git(repos@),
            r.repositories_with_changes == count_where(repos@, |x: Repository| x.has_uncommitted_changes),
            r.repositories_with_remotes == count_where(repos@, |x: Repository| x.remotes@.len() > 0),
            r.total_size_bytes == capped(sum_sizes(repos@), u64::MAX as nat),
            is_top(repos@, true, TOP_LIST_LEN as nat, r.largest_repos@),
            is_top(repos@, false, TOP_LIST_LEN as nat, r.most_active_repos@),
            r.repos_needing_attention@.len() == if attention_list(repos@).len() < ATTENTION_LIST_LEN {
                attention_list(repos@).len()
            } else {
                ATTENTION_LIST_LEN as nat
            },
            forall|k: int|
                0 <= k < r.repos_needing_attention@.len() ==> same_repository(
                    #[trigger] r.repos_needing_attention@[k],
                    attention_list(repos@)[k],
                ),
    {
        let ghost s = repos@;
        let mut git: usize = 0;
        let mut changes: usize = 0;
        let mut remotes: usize = 0;
        let mut size: u64 = 0;
        let mut attention: Vec<Repository> = Vec::new();
        let mut i: usize = 0;
        while i < repos.len()
            invariant
                s == repos@,
                i <= s.len(),
                git <= i,
                changes <= i,
                remotes <= i,
                git == count_git(s.take(i as int)),
                changes == count_where(s.take(i as int), |x: Repository| x.has_uncommitted_changes),
                remotes == count_where(s.take(i as int), |x: Repository| x.remotes@.len() > 0),
                size == capped(sum_sizes(s.take(i as int)), u64::MAX as nat),
                attention@.len() == if attention_list(s.take(i as int)).len() < ATTENTION_LIST_LEN {
                    attention_list(s.take(i as int)).len()
                } else {
                    ATTENTION_LIST_LEN as nat
                },
                forall|k: int|
                    0 <= k < attention@.len() ==> same_repository(
                        #[trigger] attention@[k],
                        attention_list(s.take(i as int))[k],
                    ),
            decreases s.len() - i,
        {
            let r = &repos[i];
            proof {
                assert(s.take(i + 1).drop_last() == s.take(i as int));
                assert(s.take(i + 1).last() == s[i as int]);
            }
            if r.is_git_repo {
                git += 1;
            }
            if r.has_uncommitted_changes {
                changes += 1;
            }
            if r.remotes.len() > 0 {
                remotes += 1;
            }
            size = size.saturating_add(r.size_bytes);
            let ghost prev = attention_list(s.take(i as int));
            if r.is_git_repo && (r.has_uncommitted_changes || r.remotes.len() == 0) {
                if attention.len() < ATTENTION_LIST_LEN {
                    attention.push(r.duplicate());
                    assert(attention_list(s.take(i + 1)) == prev.push(s[i as int]));
                }
            }
            i += 1;
        }
        assert(s.take(s.len() as int) == s);
        DirectoryStats {
            total_directories: repos.len(),
            git_repositories: git,
            non_git_directories: repos.len() - git,
            repositories_with_changes: changes,
            repositories_with_remotes: remotes,
            total_size_bytes: size,
            largest_repos: top_by(repos, true, TOP_LIST_LEN),
            most_active_repos: top_by(repos, false, TOP_LIST_LEN),
            repos_needing_attention: attention,
        }
    }
}

} // verus!
