use vstd::prelude::*;
use crate::model::views_of;

verus! {

/// The lower-case form of a string, as Unicode's case mapping gives it.
pub uninterp spec fn lower_of(s: Seq<char>) -> Seq<char>;

/// Relies on `str::to_lowercase`: the result depends on the characters
/// alone; the empty string stays empty.
#[verifier::external_body]
fn lowercase(s: &str) -> (r: String)
    ensures
        r@ == lower_of(s@),
        s@.len() == 0 ==> r@.len() == 0,
{
    s.to_lowercase()
}

/// Directory names that never hold a project of their own, in lower case:
/// dependency and build output, source and test subdirectories, caches and
/// temporary space, and operating-system metadata.
pub open spec fn noise_name_list() -> Seq<Seq<char>> {
    seq![
        "node_modules"@, "vendor"@, "target"@, "dist"@, "build"@, "out"@,
        "src"@, "lib"@, "libs"@, "components"@, "utils"@, "helpers"@,
        "tests"@, "test"@, "__tests__"@, "spec"@, "specs"@,
        "cache"@, ".cache"@, "tmp"@, "temp"@, "logs"@,
        "system volume information"@, "$recycle.bin"@, "thumbs.db"@, ".trash"@, ".ds_store"@,
    ]
}

/// A directory name is skipped when it is hidden (starts with a dot), names a
/// scoped package (starts with `@`), or is a noise name in any letter case.
pub open spec fn skips_name(name: Seq<char>) -> bool {
    ||| (name.len() > 0 && name[0] == '.')
    ||| (name.len() > 0 && name[0] == '@')
    ||| noise_name_list().contains(lower_of(name))
}

fn noise_names() -> (r: Vec<String>)
    ensures
        views_of(r@) == noise_name_list(),
{
    let r: Vec<String> = vec![
        "node_modules".to_string(), "vendor".to_string(), "target".to_string(),
        "dist".to_string(), "build".to_string(), "out".to_string(),
        "src".to_string(), "lib".to_string(), "libs".to_string(),
        "components".to_string(), "utils".to_string(), "helpers".to_string(),
        "tests".to_string(), "test".to_string(), "__tests__".to_string(),
        "spec".to_string(), "specs".to_string(),
        "cache".to_string(), ".cache".to_string(), "tmp".to_string(),
        "temp".to_string(), "logs".to_string(),
        "system volume information".to_string(), "$recycle.bin".to_string(),
        "thumbs.db".to_string(), ".trash".to_string(), ".ds_store".to_string(),
    ];
    assert(views_of(r@) =~= noise_name_list());
    r
}

/// Filters directories by name before they are classified.
pub struct IgnoreAdapter;

impl IgnoreAdapter {
    pub fn new() -> (r: Self) {
        IgnoreAdapter
    }

    /// Whether an already lower-cased directory name is one of the noise names.
    pub fn is_noise_name(&self, lowered: &str) -> (r: bool)
        ensures
            r == noise_name_list().contains(lowered@),
    {
        let names = noise_names();
        let l = lowered.to_string();
        let mut i: usize = 0;
        while i < names.len()
            invariant
                i <= names.len(),
                l@ == lowered@,
                views_of(names@) == noise_name_list(),
                forall|k: int| 0 <= k < i ==> noise_name_list()[k] != lowered@,
            decreases names.len() - i,
        {
            if names[i] == l {
                assert(noise_name_list()[i as int] == lowered@);
                return true;
            }
            i += 1;
        }
        false
    }

    /// Whether a directory with this final path component is never a
    /// candidate. A path without a readable final component is given the
    /// empty name.
    pub fn should_skip_directory(&self, dir_name: &str) -> (r: bool)
        ensures
            r == skips_name(dir_name@),
    {
        if dir_name.unicode_len() > 0 {
            let c = dir_name.get_char(0);
            if c == '.' || c == '@' {
                return true;
            }
        }
        let lowered = lowercase(dir_name);
        self.is_noise_name(lowered.as_str())
    }
}

} // verus!
