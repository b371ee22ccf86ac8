use vstd::prelude::*;
use crate::model::{Timestamp, views_of};
use crate::cache::CacheService;
use crate::clock::{current_time, stamp_of, stamp_text, is_stamp_shape, LAST_FOUR_DIGIT_YEAR_SECS};

verus! {

/// The number of historical snapshots kept after a save.
pub const MAX_HISTORY_FILES: usize = 10;

/// A file found in the history directory: its name and modification time
/// (the epoch when it could not be read).
#[derive(Clone, Debug)]
pub struct HistoryFile {
    pub name: String,
    pub modified: Timestamp,
}

/// `a` is strictly later than `b`.
pub open spec fn later(a: Timestamp, b: Timestamp) -> bool {
    a.secs > b.secs || (a.secs == b.secs && a.nanos > b.nanos)
}

/// A snapshot file: a name with a non-empty stem and the extension `json`.
pub open spec fn is_snapshot_name(name: Seq<char>) -> bool {
    let n = name.len() as int;
    &&& n > 5
    &&& name[n - 5] == '.'
    &&& name[n - 4] == 'j'
    &&& name[n - 3] == 's'
    &&& name[n - 2] == 'o'
    &&& name[n - 1] == 'n'
}

pub open spec fn snapshots_of(files: Seq<HistoryFile>) -> Seq<HistoryFile>
    decreases files.len(),
{
    if files.len() == 0 {
        Seq::empty()
    } else {
        let rest = snapshots_of(files.drop_last());
        if is_snapshot_name(files.last().name@) {
            rest.push(files.last())
        } else {
            rest
        }
    }
}

/// Entry `i` of `s` comes before entry `j` newest first; of two equally
/// recent entries the one listed later comes first.
pub open spec fn recent_before(s: Seq<HistoryFile>, i: int, j: int) -> bool {
    later(s[i].modified, s[j].modified) || (s[i].modified == s[j].modified && i > j)
}

/// `output` is `input` ordered newest first; `p` gives the input position of
/// each output entry.
pub open spec fn is_recency_order(input: Seq<HistoryFile>, output: Seq<HistoryFile>, p: Seq<int>) -> bool {
    &&& p.len() == input.len()
    &&& output.len() == input.len()
    &&& forall|k: int| 0 <= k < p.len() ==> 0 <= #[trigger] p[k] < input.len() && output[k] == input[p[k]]
    &&& forall|j: int| 0 <= j < input.len() ==> #[trigger] p.contains(j)
    &&& forall|k1: int, k2: int| 0 <= k1 < k2 < p.len() ==> recent_before(input, #[trigger] p[k1], #[trigger] p[k2])
}

pub open spec fn names_of(s: Seq<HistoryFile>) -> Seq<Seq<char>> {
    s.map_values(|f: HistoryFile| f.name@)
}

/// `removed` names the snapshots beyond the newest `MAX_HISTORY_FILES`.
pub open spec fn prunes(files: Seq<HistoryFile>, removed: Seq<Seq<char>>) -> bool {
    exists|ordered: Seq<HistoryFile>, p: Seq<int>|
        is_recency_order(snapshots_of(files), ordered, p) && removed == names_of(
            ordered.subrange(
                if ordered.len() < MAX_HISTORY_FILES {
                    ordered.len() as int
                } else {
                    MAX_HISTORY_FILES as int
                },
                ordered.len() as int,
            ),
        )
}

/// The name of the snapshot taken at the time written as `stamp`.
pub open spec fn snapshot_name(stamp: Seq<char>) -> Seq<char> {
    "repositories_"@ + stamp + ".json"@
}

fn snapshot_check(name: &str) -> (r: bool)
    ensures
        r == is_snapshot_name(name@),
{
    let n = name.unicode_len();
    if n <= 5 {
        return false;
    }
    name.get_char(n - 5) == '.' && name.get_char(n - 4) == 'j' && name.get_char(n - 3) == 's'
        && name.get_char(n - 2) == 'o' && name.get_char(n - 1) == 'n'
}

fn order_by_recency(v: Vec<HistoryFile>) -> (r: Vec<HistoryFile>)
    ensures
        exists|p: Seq<int>| is_recency_order(v@, r@, p),
{
    let ghost input = v@;
    let n = v.len();
    let mut src = v;
    let mut out: Vec<HistoryFile> = Vec::new();
    let ghost mut p: Seq<int> = Seq::empty();
    let mut i: usize = 0;
    while i < n
        invariant
            n == input.len(),
            i <= n,
            src@ == input.subrange(i as int, n as int),
            out@.len() == i,
            p.len() == i,
            forall|k: int| 0 <= k < i ==> 0 <= #[trigger] p[k] < i && out@[k] == input[p[k]],
            forall|j: int| 0 <= j < i ==> #[trigger] p.contains(j),
            forall|k1: int, k2: int| 0 <= k1 < k2 < i ==> recent_before(input, #[trigger] p[k1], #[trigger] p[k2]),
        decreases n - i,
    {
        assert(src@[0] == input[i as int]);
        let x = src.remove(0);
        assert(src@ =~= input.subrange(i + 1, n as int));
        let mut pos: usize = 0;
        while pos < out.len() && (out[pos].modified.secs > x.modified.secs || (out[pos].modified.secs
            == x.modified.secs && out[pos].modified.nanos > x.modified.nanos))
            invariant
                pos <= out@.len(),
                out@.len() == i,
                forall|k: int| 0 <= k < pos ==> later((#[trigger] out@[k]).modified, x.modified),
            decreases i - pos,
        {
            pos += 1;
        }
        proof {
            let q = p.insert(pos as int, i as int);
            if pos < i {
                assert forall|k: int| pos <= k < i implies recent_before(input, i as int, #[trigger] p[k]) by {
                    if k > pos {
                        assert(recent_before(input, p[pos as int], p[k]));
                    }
                }
            }
            assert forall|k1: int, k2: int| 0 <= k1 < k2 < i + 1 implies recent_before(input, #[trigger] q[k1], #[trigger] q[k2]) by {
                if k1 < pos && k2 < pos {
                    assert(q[k1] == p[k1] && q[k2] == p[k2]);
                } else if k1 < pos && k2 == pos {
                    assert(q[k1] == p[k1] && q[k2] == i);
                } else if k1 < pos {
                    assert(q[k1] == p[k1] && q[k2] == p[k2 - 1]);
                } else if k1 == pos {
                    assert(q[k1] == i && q[k2] == p[k2 - 1]);
                } else {
                    assert(q[k1] == p[k1 - 1] && q[k2] == p[k2 - 1]);
                }
            }
            assert forall|j: int| 0 <= j < i + 1 implies #[trigger] q.contains(j) by {
                if j == i {
                    assert(q[pos as int] == j);
                } else {
                    assert(p.contains(j));
                    let k = choose|k: int| 0 <= k < p.len() && p[k] == j;
                    if k < pos {
                        assert(q[k] == j);
                    } else {
                        assert(q[k + 1] == j);
                    }
                }
            }
        }
        let ghost old_out = out@;
        out.insert(pos, x);
        proof {
            let q = p.insert(pos as int, i as int);
            assert forall|k: int| 0 <= k < i + 1 implies 0 <= #[trigger] q[k] < i + 1 && out@[k] == input[q[k]] by {
                if k < pos {
                    assert(out@[k] == old_out[k]);
                } else if k > pos {
                    assert(out@[k] == old_out[k - 1]);
                }
            }
            p = q;
        }
        i += 1;
    }
    assert(is_recency_order(input, out@, p));
    out
}

impl CacheService {
    /// The name of a snapshot taken at the time written as `stamp`.
    pub fn backup_file_name(&self, stamp: &str) -> (r: String)
        ensures
            r@ == snapshot_name(stamp@),
    {
        let mut r = "repositories_".to_string();
        r.append(stamp);
        r.append(".json");
        r
    }

    /// The name of a snapshot taken at `now`: `repositories_YYYYMMDD_HHMMSS.json`
    /// for a time from 1970 through the year 9999; `None` for a time that
    /// cannot be written as a date.
    pub fn backup_file_name_at(&self, now: Timestamp) -> (r: Option<String>)
        ensures
            r is Some ==> r->0@ == snapshot_name(stamp_text(now.secs)),
            0 <= now.secs <= LAST_FOUR_DIGIT_YEAR_SECS ==> r is Some && is_stamp_shape(stamp_text(now.secs)),
    {
        match stamp_of(now) {
            Some(stamp) => Some(self.backup_file_name(stamp.as_str())),
            None => None,
        }
    }

    /// The name of a snapshot taken at the time the system clock reads now;
    /// see `backup_file_name_at`.
    pub fn next_backup_file_name(&self) -> (r: Option<String>)
        ensures
            r is Some ==> exists|secs: i64| r->0@ == snapshot_name(stamp_text(secs)),
    {
        self.backup_file_name_at(current_time())
    }

    /// The snapshots to delete from the history directory holding `files`:
    /// those beyond the newest `MAX_HISTORY_FILES`, files without the
    /// snapshot extension left alone.
    pub fn files_to_remove(&self, files: Vec<HistoryFile>) -> (r: Vec<String>)
        ensures
            prunes(files@, views_of(r@)),
    {
        let ghost all = files@;
        let n = files.len();
        let mut src = files;
        let mut snaps: Vec<HistoryFile> = Vec::new();
        let mut i: usize = 0;
        while i < n
            invariant
                n == all.len(),
                i <= n,
                src@ == all.subrange(i as int, n as int),
                snaps@ == snapshots_of(all.take(i as int)),
            decreases n - i,
        {
            assert(src@[0] == all[i as int]);
            let f = src.remove(0);
            assert(src@ =~= all.subrange(i + 1, n as int));
            assert(all.take(i + 1).drop_last() == all.take(i as int));
            assert(all.take(i + 1).last() == f);
            if snapshot_check(f.name.as_str()) {
                snaps.push(f);
            }
            i += 1;
        }
        assert(all.take(n as int) == all);
        let ordered = order_by_recency(snaps);
        let ghost ov = ordered@;
        let start: usize = if ordered.len() < MAX_HISTORY_FILES {
            ordered.len()
        } else {
            MAX_HISTORY_FILES
        };
        let mut r: Vec<String> = Vec::new();
        let mut k: usize = start;
        while k < ordered.len()
            invariant
                start <= k <= ordered@.len(),
                ov == ordered@,
                views_of(r@) == names_of(ov.subrange(start as int, k as int)),
            decreases ordered@.len() - k,
        {
            let ghost old_r = views_of(r@);
            r.push(ordered[k].name.clone());
            assert(views_of(r@) =~= old_r.push(ov[k as int].name@));
            assert(names_of(ov.subrange(start as int, k + 1)) =~= names_of(ov.subrange(start as int, k as int)).push(
                ov[k as int].name@,
            ));
            k += 1;
        }
        r
    }
}

/// Rotation keeps at most `MAX_HISTORY_FILES` snapshots, all the snapshots
/// when there are no more, and never removes a snapshot newer than one it
/// keeps.
pub proof fn lemma_retention_cap(snapshots: Seq<HistoryFile>, ordered: Seq<HistoryFile>, p: Seq<int>)
    requires
        is_recency_order(snapshots, ordered, p),
    ensures
        ({
            let keep = if ordered.len() < MAX_HISTORY_FILES {
                ordered.len() as int
            } else {
                MAX_HISTORY_FILES as int
            };
            &&& keep <= MAX_HISTORY_FILES
            &&& (snapshots.len() <= MAX_HISTORY_FILES ==> keep == snapshots.len())
            &&& forall|a: int, b: int|
                0 <= a < keep <= b < ordered.len() ==> !later((#[trigger] ordered[b]).modified, (#[trigger] ordered[a]).modified)
        }),
{
    let keep = if ordered.len() < MAX_HISTORY_FILES {
        ordered.len() as int
    } else {
        MAX_HISTORY_FILES as int
    };
    assert forall|a: int, b: int|
        0 <= a < keep <= b < ordered.len() implies !later((#[trigger] ordered[b]).modified, (#[trigger] ordered[a]).modified) by {
        assert(recent_before(snapshots, p[a], p[b]));
    }
}

} // verus!
