use vstd::prelude::*;

use crate::depinfo::{first_dep, read_first_dep};
use crate::meta::{dep_features, Metadata};
use crate::names::{extract_meta_hash, meta_hash_of};
use crate::stale::StaleSeeds;
use crate::text::same_text;

verus! {

/// What the caller asks to clean.
#[derive(PartialEq, Eq, Structural, Clone, Copy)]
pub enum Mode {
    /// The global cache of downloaded packages.
    CargoCache,
    /// The project's build output directory.
    Target,
}

/// A plain file directly under the build root is deleted unless it is the lock file.
pub fn is_removable_top_file(name: &str) -> (r: bool)
    ensures
        r == (name@ != ".cargo-lock"@),
{
    !same_text(name, ".cargo-lock")
}

/// What a dependency-info file with file stem `stem` and text `contents` tells: the
/// metadata hash the stem carries, and the feature string the current resolution
/// gives the package of its first source (none when that package is no longer in
/// use). `None` when the text names no source.
pub fn dep_file_entry(contents: &str, stem: &str, cargo_home: &str, meta: &Metadata) -> (r: Option<(String, Option<String>)>)
    ensures
        r is None <==> first_dep(contents@) is None,
        r matches Some((h, f)) ==> (first_dep(contents@) matches Some(dep) && h@ == meta_hash_of(stem@)
            && match f {
            Some(f) => dep_features(cargo_home@, *meta, dep) == Some(f@),
            None => dep_features(cargo_home@, *meta, dep) is None,
        }),
{
    let dep = match read_first_dep(contents) {
        Some(d) => d,
        None => return None,
    };
    let hash = extract_meta_hash(stem);
    let features = meta.get_dep_features(cargo_home, dep.as_str());
    Some((hash, features))
}

impl StaleSeeds {
    /// Reads one dependency-info file into the seeds: its metadata hash becomes
    /// outdated when its first source lies in no package in use, else it records the
    /// current feature string. Returns `false`, recording nothing, when the text
    /// names no source.
    pub fn record_dep_file(&mut self, contents: &str, stem: &str, cargo_home: &str, meta: &Metadata) -> (r: bool)
        ensures
            r <==> first_dep(contents@) is Some,
            !r ==> final(self).outdated@ == old(self).outdated@ && final(self).features@ == old(self).features@,
            r ==> (first_dep(contents@) matches Some(dep) && match dep_features(cargo_home@, *meta, dep) {
                None => final(self).outdated@.drop_last() == old(self).outdated@
                    && final(self).outdated@.len() == old(self).outdated@.len() + 1
                    && final(self).outdated@.last()@ == meta_hash_of(stem@)
                    && final(self).features@ == old(self).features@,
                Some(f) => final(self).features@.drop_last() == old(self).features@
                    && final(self).features@.len() == old(self).features@.len() + 1
                    && final(self).features@.last().meta_hash@ == meta_hash_of(stem@)
                    && final(self).features@.last().features@ == f
                    && final(self).outdated@ == old(self).outdated@,
            }),
    {
        match dep_file_entry(contents, stem, cargo_home, meta) {
            None => false,
            Some((h, f)) => {
                self.record(h, f);
                true
            },
        }
    }
}

/// A second sweep of the build root deletes no plain file: the first one left only
/// lock files.
pub proof fn lemma_top_files_idempotent(names: Seq<Seq<char>>, left: Seq<Seq<char>>)
    requires
        left == names.filter(|m: Seq<char>| m == ".cargo-lock"@),
    ensures
        forall|m: int| 0 <= m < left.len() ==> !(#[trigger] left[m] != ".cargo-lock"@),
{
    broadcast use vstd::seq_lib::group_filter_ensures;

}

} // verus!
