use vstd::prelude::*;
use crate::model::views_of;
use crate::text::{contains_text, capped};

verus! {

/// A byte count written with SI (decimal) units, as humansize's `DECIMAL`
/// options format it.
pub uninterp spec fn decimal_size_text(bytes: u64) -> Seq<char>;

/// Relies on `humansize::format_size` with the `DECIMAL` options: the text
/// depends on the byte count alone.
#[verifier::external_body]
fn humansize_decimal(bytes: u64) -> (r: String)
    ensures
        r@ == decimal_size_text(bytes),
{
    humansize::format_size(bytes, humansize::DECIMAL)
}

/// Files whose presence marks a directory as a project.
pub open spec fn indicator_list() -> Seq<Seq<char>> {
    seq![
        "package.json"@, "Cargo.toml"@, "pyproject.toml"@, "pom.xml"@,
        "go.mod"@, "Makefile"@, "Dockerfile"@, "README.md"@,
    ]
}

pub open spec fn sum_u64(s: Seq<u64>) -> nat
    decreases s.len(),
{
    if s.len() == 0 {
        0
    } else {
        sum_u64(s.drop_last()) + s.last() as nat
    }
}

/// Size and marker-file decisions about directories.
pub struct FilesystemAdapter;

impl FilesystemAdapter {
    pub fn new() -> (r: Self) {
        FilesystemAdapter
    }

    /// The project indicator files, to be looked for in a directory.
    pub fn project_indicator_files(&self) -> (r: Vec<String>)
        ensures
            views_of(r@) == indicator_list(),
    {
        let r = vec![
            "package.json".to_string(), "Cargo.toml".to_string(), "pyproject.toml".to_string(),
            "pom.xml".to_string(), "go.mod".to_string(), "Makefile".to_string(),
            "Dockerfile".to_string(), "README.md".to_string(),
        ];
        assert(views_of(r@) =~= indicator_list());
        r
    }

    /// Whether one of the files found in a directory, `present`, is a project
    /// indicator.
    pub fn has_project_indicators(&self, present: &Vec<String>) -> (r: bool)
        ensures
            r == exists|k: int| 0 <= k < indicator_list().len() && views_of(present@).contains(#[trigger] indicator_list()[k]),
    {
        let markers = self.project_indicator_files();
        let mut i: usize = 0;
        while i < markers.len()
            invariant
                i <= markers@.len(),
                views_of(markers@) == indicator_list(),
                forall|k: int| 0 <= k < i ==> !views_of(present@).contains(#[trigger] indicator_list()[k]),
            decreases markers@.len() - i,
        {
            assert(markers@[i as int]@ == indicator_list()[i as int]);
            if contains_text(present, markers[i].as_str()) {
                return true;
            }
            i += 1;
        }
        false
    }

    /// A byte count written with SI units, such as `1 MB` for a million bytes.
    pub fn format_size(&self, size_bytes: u64) -> (r: String)
        ensures
            r@ == decimal_size_text(size_bytes),
    {
        humansize_decimal(size_bytes)
    }

    /// The total of the given file lengths, saturating at the largest `u64`.
    pub fn total_size(&self, file_lengths: &Vec<u64>) -> (r: u64)
        ensures
            r == capped(sum_u64(file_lengths@), u64::MAX as nat),
    {
        let mut total: u64 = 0;
        let mut i: usize = 0;
        while i < file_lengths.len()
            invariant
                i <= file_lengths@.len(),
                total == capped(sum_u64(file_lengths@.take(i as int)), u64::MAX as nat),
            decreases file_lengths@.len() - i,
        {
            proof {
                assert(file_lengths@.take(i + 1).drop_last() == file_lengths@.take(i as int));
                assert(file_lengths@.take(i + 1).last() == file_lengths@[i as int]);
            }
            total = total.saturating_add(file_lengths[i]);
            i += 1;
        }
        assert(file_lengths@.take(file_lengths@.len() as int) == file_lengths@);
        total
    }
}

} // verus!
