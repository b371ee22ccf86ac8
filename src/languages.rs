use vstd::prelude::*;
use crate::model::views_of;
use crate::scan::LanguageProfile;
use crate::text::{contains_text, capped};

verus! {

/// Directories whose sampled size exceeds this many bytes are not counted.
pub const LARGE_SAMPLE_BYTES: u64 = 5_000_000;

/// Directories with at least this many subdirectories are not counted.
pub const MANY_SUBDIRECTORIES: usize = 8;

/// Each language contributes at most this many lines to the totals.
pub const LINE_CAP: usize = 100_000;

/// The size sample takes the first this many readable entries.
pub const SAMPLE_ENTRIES: usize = 101;

/// Line counts of one language in a directory. `language` is the counter's
/// name for the language type (`Cpp`, `Rust`, ...).
#[derive(Clone, Debug)]
pub struct LanguageStat {
    pub language: String,
    pub lines: usize,
    pub code: usize,
    pub comments: usize,
}

/// The display name of a language type.
pub open spec fn display_name(t: Seq<char>) -> Seq<char> {
    if t == "Cpp"@ {
        "C++"@
    } else if t == "CSharp"@ {
        "C#"@
    } else if t == "Html"@ {
        "HTML"@
    } else if t == "Css"@ {
        "CSS"@
    } else if t == "Sh"@ {
        "Shell"@
    } else if t == "Json"@ {
        "JSON"@
    } else if t == "Yaml"@ {
        "YAML"@
    } else if t == "Toml"@ {
        "TOML"@
    } else {
        t
    }
}

/// The manifest files that name a directory's language outright, checked in
/// this order.
pub open spec fn manifest_list() -> Seq<Seq<char>> {
    seq!["package.json"@, "Cargo.toml"@, "pyproject.toml"@, "go.mod"@, "Gemfile"@, "pom.xml"@]
}

/// The language a present manifest file names, the first one in
/// `manifest_list` order.
pub open spec fn manifest_language(present: Seq<Seq<char>>) -> Option<Seq<char>> {
    if present.contains("package.json"@) {
        Some("JavaScript"@)
    } else if present.contains("Cargo.toml"@) {
        Some("Rust"@)
    } else if present.contains("pyproject.toml"@) {
        Some("Python"@)
    } else if present.contains("go.mod"@) {
        Some("Go"@)
    } else if present.contains("Gemfile"@) {
        Some("Ruby"@)
    } else if present.contains("pom.xml"@) {
        Some("Java"@)
    } else {
        None
    }
}

pub open spec fn sum_first(sizes: Seq<u64>, n: nat) -> nat
    decreases sizes.len(),
{
    if sizes.len() == 0 || n == 0 {
        0
    } else {
        sizes[0] as nat + sum_first(sizes.drop_first(), (n - 1) as nat)
    }
}

/// The profile a directory gets without counting lines: `Some` with the
/// manifest's language, or the `Mixed` marker for a large sample or many
/// subdirectories; `None` when lines must be counted.
pub open spec fn shortcut(present: Seq<Seq<char>>, sample_size: Option<u64>, subdirs: Option<usize>) -> Option<(Seq<char>, nat, nat)> {
    if manifest_language(present) is Some {
        Some((manifest_language(present)->0, 0, 0))
    } else if sample_size is Some && sample_size->0 > LARGE_SAMPLE_BYTES {
        Some(("Mixed"@, 0, 0))
    } else if subdirs is Some && subdirs->0 >= MANY_SUBDIRECTORIES {
        Some(("Mixed"@, 0, 0))
    } else {
        None
    }
}

/// The position of the language with the most code lines, the last one on a
/// tie; -1 when there is none.
pub open spec fn primary_index(stats: Seq<LanguageStat>) -> int
    decreases stats.len(),
{
    if stats.len() == 0 {
        -1
    } else {
        let k = primary_index(stats.drop_last());
        if k < 0 || stats.last().code >= stats[k].code {
            stats.len() - 1
        } else {
            k
        }
    }
}

pub open spec fn capped_lines(stats: Seq<LanguageStat>) -> nat
    decreases stats.len(),
{
    if stats.len() == 0 {
        0
    } else {
        capped_lines(stats.drop_last()) + if stats.last().lines > LINE_CAP {
            LINE_CAP as nat
        } else {
            stats.last().lines as nat
        }
    }
}

pub open spec fn capped_code(stats: Seq<LanguageStat>) -> nat
    decreases stats.len(),
{
    if stats.len() == 0 {
        0
    } else {
        capped_code(stats.drop_last()) + if stats.last().code > LINE_CAP {
            LINE_CAP as nat
        } else {
            stats.last().code as nat
        }
    }
}

pub open spec fn code_total(stats: Seq<LanguageStat>) -> nat
    decreases stats.len(),
{
    if stats.len() == 0 {
        0
    } else {
        code_total(stats.drop_last()) + stats.last().code as nat
    }
}

/// `r` summarizes `stats`: the display name of the language with the most
/// code, and the capped line totals (saturating at the largest `usize`).
pub open spec fn summarizes(stats: Seq<LanguageStat>, r: LanguageProfile) -> bool {
    &&& if stats.len() == 0 {
        r.primary_language is None
    } else {
        r.primary_language is Some && r.primary_language->0@ == display_name(stats[primary_index(stats)].language@)
    }
    &&& r.total_lines == capped(capped_lines(stats), usize::MAX as nat)
    &&& r.code_lines == capped(capped_code(stats), usize::MAX as nat)
}

pub open spec fn profile_is(r: LanguageProfile, language: Seq<char>) -> bool {
    r.primary_language is Some && r.primary_language->0@ == language && r.total_lines == 0 && r.code_lines == 0
}

pub proof fn lemma_primary_index_range(stats: Seq<LanguageStat>)
    ensures
        stats.len() == 0 ==> primary_index(stats) == -1,
        stats.len() > 0 ==> 0 <= primary_index(stats) < stats.len(),
    decreases stats.len(),
{
    if stats.len() > 0 {
        lemma_primary_index_range(stats.drop_last());
    }
}

/// Profiles directories for their languages and line counts.
pub struct TokeiAdapter;

impl TokeiAdapter {
    pub fn new() -> (r: Self) {
        TokeiAdapter
    }

    /// The manifest files whose presence names a directory's language.
    pub fn manifest_files(&self) -> (r: Vec<String>)
        ensures
            views_of(r@) == manifest_list(),
    {
        let r = vec![
            "package.json".to_string(), "Cargo.toml".to_string(), "pyproject.toml".to_string(),
            "go.mod".to_string(), "Gemfile".to_string(), "pom.xml".to_string(),
        ];
        assert(views_of(r@) =~= manifest_list());
        r
    }

    /// The display name of a language type.
    pub fn format_language_name(&self, language_type: &str) -> (r: String)
        ensures
            r@ == display_name(language_type@),
    {
        let t = language_type.to_string();
        if t == "Cpp".to_string() {
            "C++".to_string()
        } else if t == "CSharp".to_string() {
            "C#".to_string()
        } else if t == "Html".to_string() {
            "HTML".to_string()
        } else if t == "Css".to_string() {
            "CSS".to_string()
        } else if t == "Sh".to_string() {
            "Shell".to_string()
        } else if t == "Json".to_string() {
            "JSON".to_string()
        } else if t == "Yaml".to_string() {
            "YAML".to_string()
        } else if t == "Toml".to_string() {
            "TOML".to_string()
        } else {
            t
        }
    }

    /// The language named by a present manifest file, given the names of the
    /// manifest files present in the directory.
    pub fn manifest_language(&self, present: &Vec<String>) -> (r: Option<String>)
        ensures
            match r {
                Some(l) => manifest_language(views_of(present@)) == Some(l@),
                None => manifest_language(views_of(present@)) is None,
            },
    {
        if contains_text(present, "package.json") {
            Some("JavaScript".to_string())
        } else if contains_text(present, "Cargo.toml") {
            Some("Rust".to_string())
        } else if contains_text(present, "pyproject.toml") {
            Some("Python".to_string())
        } else if contains_text(present, "go.mod") {
            Some("Go".to_string())
        } else if contains_text(present, "Gemfile") {
            Some("Ruby".to_string())
        } else if contains_text(present, "pom.xml") {
            Some("Java".to_string())
        } else {
            None
        }
    }

    /// The sampled size of a directory from the lengths of its readable
    /// entries, in listing order: the sum of the first `SAMPLE_ENTRIES`,
    /// saturating at the largest `u64`.
    pub fn estimate_directory_size(&self, entry_lengths: &Vec<u64>) -> (r: u64)
        ensures
            r == capped(sum_first(entry_lengths@, SAMPLE_ENTRIES as nat), u64::MAX as nat),
    {
        let n: usize = if entry_lengths.len() < SAMPLE_ENTRIES {
            entry_lengths.len()
        } else {
            SAMPLE_ENTRIES
        };
        let mut total: u64 = 0;
        let mut i: usize = n;
        let ghost s = entry_lengths@;
        while i > 0
            invariant
                i <= n,
                n <= s.len(),
                n <= SAMPLE_ENTRIES,
                s == entry_lengths@,
                total == capped(sum_first(s.subrange(i as int, n as int), (n - i) as nat), u64::MAX as nat),
            decreases i,
        {
            let ghost t = s.subrange(i - 1, n as int);
            assert(t.drop_first() == s.subrange(i as int, n as int));
            assert(t[0] == s[i - 1]);
            total = entry_lengths[i - 1].saturating_add(total);
            i -= 1;
            proof {
                if sum_first(s.subrange(i + 1, n as int), (n - i - 1) as nat) > u64::MAX {
                    assert(sum_first(t, (n - i) as nat) > u64::MAX);
                }
            }
        }
        proof {
            lemma_sum_first_prefix(s, n as nat, SAMPLE_ENTRIES as nat);
        }
        total
    }

    /// The profile of a directory from the counter's per-language results.
    pub fn summarize_languages(&self, stats: &Vec<LanguageStat>) -> (r: LanguageProfile)
        ensures
            summarizes(stats@, r),
    {
        let mut best: usize = 0;
        let mut total: usize = 0;
        let mut code: usize = 0;
        let mut i: usize = 0;
        while i < stats.len()
            invariant
                i <= stats@.len(),
                i > 0 ==> best as int == primary_index(stats@.take(i as int)),
                total == capped(capped_lines(stats@.take(i as int)), usize::MAX as nat),
                code == capped(capped_code(stats@.take(i as int)), usize::MAX as nat),
            decreases stats@.len() - i,
        {
            proof {
                assert(stats@.take(i + 1).drop_last() == stats@.take(i as int));
                assert(stats@.take(i + 1).last() == stats@[i as int]);
                lemma_primary_index_range(stats@.take(i as int));
                if i > 0 {
                    assert(stats@.take(i as int)[best as int] == stats@[best as int]);
                }
            }
            if i == 0 || stats[i].code >= stats[best].code {
                best = i;
            }
            let l = if stats[i].lines > LINE_CAP { LINE_CAP } else { stats[i].lines };
            let c = if stats[i].code > LINE_CAP { LINE_CAP } else { stats[i].code };
            total = total.saturating_add(l);
            code = code.saturating_add(c);
            i += 1;
        }
        assert(stats@.take(stats@.len() as int) == stats@);
        let primary_language = if stats.len() == 0 {
            None
        } else {
            proof {
                lemma_primary_index_range(stats@);
            }
            Some(self.format_language_name(stats[best].language.as_str()))
        };
        LanguageProfile { primary_language, total_lines: total, code_lines: code }
    }

    /// The profile of a directory. When `present` (the manifest files found),
    /// the sampled size or the subdirectory count settle it, no lines are
    /// counted; otherwise `count_lines` is called once and its result
    /// summarized.
    pub fn analyze_languages<F: Fn() -> Vec<LanguageStat>>(
        &self,
        present: &Vec<String>,
        sample_size: Option<u64>,
        subdirs: Option<usize>,
        count_lines: F,
    ) -> (r: LanguageProfile)
        requires
            count_lines.requires(()),
        ensures
            match shortcut(views_of(present@), sample_size, subdirs) {
                Some(s) => profile_is(r, s.0),
                None => exists|stats: Vec<LanguageStat>| count_lines.ensures((), stats) && summarizes(stats@, r),
            },
    {
        match self.manifest_language(present) {
            Some(l) => {
                return LanguageProfile { primary_language: Some(l), total_lines: 0, code_lines: 0 };
            },
            None => {},
        }
        let large = match sample_size {
            Some(s) => s > LARGE_SAMPLE_BYTES,
            None => false,
        };
        let crowded = match subdirs {
            Some(n) => n >= MANY_SUBDIRECTORIES,
            None => false,
        };
        if large || crowded {
            let r = LanguageProfile { primary_language: Some("Mixed".to_string()), total_lines: 0, code_lines: 0 };
            return r;
        }
        let stats = count_lines();
        self.summarize_languages(&stats)
    }

    /// Whether the counted code lines reach `min_lines`.
    pub fn looks_like_project(&self, stats: &Vec<LanguageStat>, min_lines: usize) -> (r: bool)
        ensures
            r == (code_total(stats@) >= min_lines),
    {
        let mut total: usize = 0;
        let mut i: usize = 0;
        while i < stats.len()
            invariant
                i <= stats@.len(),
                total == capped(code_total(stats@.take(i as int)), usize::MAX as nat),
            decreases stats@.len() - i,
        {
            proof {
                assert(stats@.take(i + 1).drop_last() == stats@.take(i as int));
                assert(stats@.take(i + 1).last() == stats@[i as int]);
            }
            total = total.saturating_add(stats[i].code);
            i += 1;
        }
        assert(stats@.take(stats@.len() as int) == stats@);
        total >= min_lines
    }

    /// Per language: its display name, lines, code lines and comment lines.
    pub fn get_language_breakdown(&self, stats: &Vec<LanguageStat>) -> (r: Vec<(String, usize, usize, usize)>)
        ensures
            r@.len() == stats@.len(),
            forall|i: int|
                0 <= i < r@.len() ==> (#[trigger] r@[i]).0@ == display_name(stats@[i].language@) && r@[i].1
                    == stats@[i].lines && r@[i].2 == stats@[i].code && r@[i].3 == stats@[i].comments,
    {
        let mut r: Vec<(String, usize, usize, usize)> = Vec::new();
        let mut i: usize = 0;
        while i < stats.len()
            invariant
                i <= stats@.len(),
                r@.len() == i,
                forall|k: int|
                    0 <= k < i ==> (#[trigger] r@[k]).0@ == display_name(stats@[k].language@) && r@[k].1
                        == stats@[k].lines && r@[k].2 == stats@[k].code && r@[k].3 == stats@[k].comments,
            decreases stats@.len() - i,
        {
            let s = &stats[i];
            r.push((self.format_language_name(s.language.as_str()), s.lines, s.code, s.comments));
            i += 1;
        }
        r
    }
}

pub proof fn lemma_sum_first_prefix(s: Seq<u64>, n: nat, m: nat)
    requires
        n <= s.len(),
        n <= m,
        n == s.len() || n == m,
    ensures
        sum_first(s.subrange(0, n as int), n) == sum_first(s, m),
    decreases n,
{
    if n > 0 {
        let t = s.subrange(0, n as int);
        assert(t.drop_first() == s.drop_first().subrange(0, n - 1));
        lemma_sum_first_prefix(s.drop_first(), (n - 1) as nat, (m - 1) as nat);
    } else if s.len() > 0 {
        assert(m == 0);
    }
}

} // verus!
