use vstd::prelude::*;

use crate::paths::{components, parts_view, path_components, Part, PathPart};
use crate::text::{chars_of, push_char, same_text, string_of_range};

verus! {

/// `"s"`.
pub open spec fn quoted(s: Seq<char>) -> Seq<char> {
    seq!['"'] + s + seq!['"']
}

/// The quoted features, separated by `", "`.
pub open spec fn joined(v: Seq<String>) -> Seq<char>
    decreases v.len(),
{
    if v.len() == 0 {
        seq![]
    } else if v.len() == 1 {
        quoted(v[0]@)
    } else {
        joined(v.drop_last()) + seq![',', ' '] + quoted(v.last()@)
    }
}

/// A feature list as the build tool stores it in a fingerprint record:
/// `["a", "b"]`, and `[]` for none.
pub open spec fn feature_string(v: Seq<String>) -> Seq<char> {
    seq!['['] + joined(v) + seq![']']
}

fn push_text(out: &mut String, s: &str)
    ensures
        final(out)@ == old(out)@ + s@,
{
    let cs = chars_of(s);
    let ghost start = out@;
    let mut i: usize = 0;
    while i < cs.len()
        invariant
            i <= cs@.len(),
            out@ == start + cs@.subrange(0, i as int),
        decreases cs@.len() - i,
    {
        push_char(out, cs[i]);
        assert(cs@.subrange(0, i + 1) == cs@.subrange(0, i as int).push(cs@[i as int]));
        i += 1;
    }
    assert(cs@.subrange(0, i as int) == cs@);
}

/// Serializes a feature list the way fingerprint records hold it.
pub fn build_feature_string(features: &Vec<String>) -> (r: String)
    ensures
        r@ == feature_string(features@),
{
    let mut s = String::new();
    push_char(&mut s, '[');
    let n = features.len();
    let mut i: usize = 0;
    while i < n
        invariant
            n == features@.len(),
            i <= n,
            s@ == seq!['['] + joined(features@.subrange(0, i as int)),
        decreases n - i,
    {
        if i > 0 {
            push_char(&mut s, ',');
            push_char(&mut s, ' ');
        }
        push_char(&mut s, '"');
        push_text(&mut s, features[i].as_str());
        push_char(&mut s, '"');
        proof {
            let v = features@.subrange(0, i + 1);
            assert(v.drop_last() == features@.subrange(0, i as int));
            if i == 0 {
                assert(joined(features@.subrange(0, 0)) == Seq::<char>::empty());
            }
        }
        i += 1;
    }
    push_char(&mut s, ']');
    assert(features@.subrange(0, n as int) == features@);
    s
}

/// Where a package's source is cached.
#[derive(PartialEq, Eq, Structural, Clone, Copy)]
pub enum SourceKind {
    Registry,
    Git,
}

/// The last component of a path, when it is a name.
pub open spec fn file_name(ps: Seq<Part>) -> Option<Seq<char>> {
    if ps.len() > 0 && ps.last() is Name {
        Some(ps.last()->Name_0)
    } else {
        None
    }
}

/// The path without its last component; none for an empty path or the root.
pub open spec fn parent(ps: Seq<Part>) -> Option<Seq<Part>> {
    if ps.len() > 0 && !(ps.last() is Root) {
        Some(ps.drop_last())
    } else {
        None
    }
}

pub open spec fn starts_with(s: Seq<char>, prefix: Seq<char>) -> bool {
    prefix.len() <= s.len() && s.subrange(0, prefix.len() as int) == prefix
}

/// The names of the two directories that hold a manifest: the grandparent's name
/// and the parent's name.
pub open spec fn holding_dirs(windows: bool, manifest: Seq<char>) -> Option<(Seq<char>, Seq<char>)> {
    let ps = components(windows, manifest);
    match parent(ps) {
        None => None,
        Some(p1) => match parent(p1) {
            None => None,
            Some(p2) => match (file_name(p2), file_name(p1)) {
                (Some(group), Some(dir)) => Some((group, dir)),
                _ => None,
            },
        },
    }
}

/// The cache location of a package: a registry package under
/// `{registry}/{name}-{version}/Cargo.toml`, a git package under
/// `{repository}/{revision}/Cargo.toml`; none for a package of another origin or a
/// manifest path too short to name both directories. `windows` selects the path
/// rules.
pub open spec fn package_location(windows: bool, source: Option<Seq<char>>, manifest: Seq<char>) -> Option<
    (SourceKind, Seq<char>, Seq<char>),
> {
    match source {
        None => None,
        Some(s) => {
            let kind = if starts_with(s, "registry+"@) {
                Some(SourceKind::Registry)
            } else if starts_with(s, "git+"@) {
                Some(SourceKind::Git)
            } else {
                None
            };
            match (kind, holding_dirs(windows, manifest)) {
                (Some(k), Some((g, d))) => Some((k, g, d)),
                _ => None,
            }
        },
    }
}

fn has_prefix(s: &str, prefix: &str) -> (r: bool)
    ensures
        r == starts_with(s@, prefix@),
{
    let cs = chars_of(s);
    let ps = chars_of(prefix);
    if ps.len() > cs.len() {
        return false;
    }
    let mut i: usize = 0;
    while i < ps.len()
        invariant
            cs@ == s@,
            ps@ == prefix@,
            ps@.len() <= cs@.len(),
            i <= ps@.len(),
            forall|j: int| 0 <= j < i ==> cs@[j] == ps@[j],
        decreases ps@.len() - i,
    {
        if cs[i] != ps[i] {
            assert(cs@.subrange(0, ps@.len() as int)[i as int] != ps@[i as int]);
            assert(cs@.subrange(0, ps@.len() as int) != ps@);
            return false;
        }
        i += 1;
    }
    assert(cs@.subrange(0, ps@.len() as int) == ps@);
    true
}

/// The cache location of one resolved package.
pub struct CachedPackage {
    pub kind: SourceKind,
    pub group: String,
    pub dir: String,
}

fn name_of(p: &PathPart) -> (r: Option<String>)
    ensures
        r is None <==> !(p@ is Name),
        r matches Some(s) ==> p@ == Part::Name(s@),
{
    match p {
        PathPart::Normal(s) => Some(s.clone()),
        _ => None,
    }
}

impl CachedPackage {
    /// Where the package with this source and manifest path is cached, if anywhere.
    pub fn new(windows: bool, source: &Option<String>, manifest_path: &str) -> (r: Option<CachedPackage>)
        ensures
            r is None <==> package_location(
                windows,
                match source {
                    Some(s) => Some(s@),
                    None => None,
                },
                manifest_path@,
            ) is None,
            r matches Some(c) ==> package_location(
                windows,
                match source {
                    Some(s) => Some(s@),
                    None => None,
                },
                manifest_path@,
            ) == Some((c.kind, c.group@, c.dir@)),
    {
        let s = match source {
            Some(s) => s,
            None => return None,
        };
        let kind = if has_prefix(s.as_str(), "registry+") {
            SourceKind::Registry
        } else if has_prefix(s.as_str(), "git+") {
            SourceKind::Git
        } else {
            return None;
        };
        let ps = path_components(windows, manifest_path);
        let ghost v = parts_view(ps@);
        let n = ps.len();
        if n < 3 {
            return None;
        }
        assert(v.len() == n);
        match (&ps[n - 1], &ps[n - 2]) {
            (PathPart::RootDir, _) | (_, PathPart::RootDir) => {
                return None;
            },
            _ => {},
        }
        assert(parent(v) == Some(v.drop_last()));
        assert(parent(v.drop_last()) == Some(v.drop_last().drop_last()));
        let group = name_of(&ps[n - 3]);
        let dir = name_of(&ps[n - 2]);
        match (group, dir) {
            (Some(group), Some(dir)) => Some(CachedPackage { kind, group, dir }),
            _ => None,
        }
    }
}

/// One package directory of the inventory, under the registry or repository
/// directory `group`, with the identity of the package it holds.
pub struct PackageDir {
    pub group: String,
    pub dir: String,
    pub id: String,
}

/// The package identity recorded for `dir` under `group`; a later entry replaces
/// an earlier one.
pub open spec fn lookup(entries: Seq<PackageDir>, group: Seq<char>, dir: Seq<char>) -> Option<Seq<char>>
    decreases entries.len(),
{
    if entries.len() == 0 {
        None
    } else if entries.last().group@ == group && entries.last().dir@ == dir {
        Some(entries.last().id@)
    } else {
        lookup(entries.drop_last(), group, dir)
    }
}

pub open spec fn has_group(entries: Seq<PackageDir>, group: Seq<char>) -> bool {
    exists|m: int| 0 <= m < entries.len() && (#[trigger] entries[m]).group@ == group
}

/// An archive `{name}-{version}.crate` stands for the package directory
/// `{name}-{version}`; any other entry for itself.
pub open spec fn archive_stem(item: Seq<char>) -> Seq<char> {
    if item.len() >= 6 && item.subrange(item.len() - 6, item.len() as int) == ".crate"@ {
        item.subrange(0, item.len() - 6)
    } else {
        item
    }
}

fn find_dir<'a>(entries: &'a Vec<PackageDir>, group: &str, dir: &str) -> (r: Option<&'a String>)
    ensures
        r is None <==> lookup(entries@, group@, dir@) is None,
        r matches Some(id) ==> lookup(entries@, group@, dir@) == Some(id@),
{
    let mut m = entries.len();
    assert(entries@.subrange(0, m as int) == entries@);
    while m > 0
        invariant
            m <= entries@.len(),
            lookup(entries@, group@, dir@) == lookup(entries@.subrange(0, m as int), group@, dir@),
        decreases m,
    {
        assert(entries@.subrange(0, m as int).drop_last() == entries@.subrange(0, m - 1));
        let e = &entries[m - 1];
        if same_text(e.group.as_str(), group) && same_text(e.dir.as_str(), dir) {
            return Some(&e.id);
        }
        m -= 1;
    }
    None
}

fn find_group(entries: &Vec<PackageDir>, group: &str) -> (r: bool)
    ensures
        r == has_group(entries@, group@),
{
    let mut m: usize = 0;
    while m < entries.len()
        invariant
            m <= entries@.len(),
            forall|k: int| 0 <= k < m ==> (#[trigger] entries@[k]).group@ != group@,
        decreases entries@.len() - m,
    {
        if same_text(entries[m].group.as_str(), group) {
            return true;
        }
        m += 1;
    }
    false
}

fn strip_archive(item: &str) -> (r: String)
    ensures
        r@ == archive_stem(item@),
{
    let cs = chars_of(item);
    let n = cs.len();
    if n >= 6 {
        let tail = string_of_range(&cs, n - 6, n);
        if same_text(tail.as_str(), ".crate") {
            return string_of_range(&cs, 0, n - 6);
        }
    }
    string_of_range(&cs, 0, n)
}

/// The directories of the global cache that the current resolution uses:
/// registry packages by registry directory and package directory, git packages by
/// repository directory and revision directory.
pub struct PackageSet {
    pub registry: Vec<PackageDir>,
    pub git: Vec<PackageDir>,
    /// Whether paths follow the rules of Windows.
    pub windows: bool,
}

impl PackageSet {
    /// An empty inventory, for paths of Windows or of Unix.
    pub fn new(windows: bool) -> (r: PackageSet)
        ensures
            r.registry@.len() == 0,
            r.git@.len() == 0,
            r.windows == windows,
    {
        PackageSet { registry: Vec::new(), git: Vec::new(), windows }
    }

    /// Adds a resolved package: under its registry when its source is a registry,
    /// under its repository when it is git; a package of another origin, or whose
    /// manifest path is too short, adds nothing.
    pub fn add_package(&mut self, source: &Option<String>, manifest_path: &str, id: String)
        ensures
            ({
                let src = match source {
                    Some(s) => Some(s@),
                    None => None,
                };
                final(self).windows == old(self).windows && match package_location(
                    old(self).windows,
                    src,
                    manifest_path@,
                ) {
                    None => final(self).registry@ == old(self).registry@ && final(self).git@ == old(self).git@,
                    Some((kind, g, d)) => {
                        let v = if kind == SourceKind::Registry {
                            final(self).registry@
                        } else {
                            final(self).git@
                        };
                        let u = if kind == SourceKind::Registry {
                            old(self).registry@
                        } else {
                            old(self).git@
                        };
                        &&& v.len() == u.len() + 1
                        &&& v.drop_last() == u
                        &&& v.last().group@ == g
                        &&& v.last().dir@ == d
                        &&& v.last().id@ == id@
                        &&& kind == SourceKind::Registry ==> final(self).git@ == old(self).git@
                        &&& kind == SourceKind::Git ==> final(self).registry@ == old(self).registry@
                    },
                }
            }),
    {
        match CachedPackage::new(self.windows, source, manifest_path) {
            None => {},
            Some(c) => {
                let entry = PackageDir { group: c.group, dir: c.dir, id };
                match c.kind {
                    SourceKind::Registry => self.registry.push(entry),
                    SourceKind::Git => self.git.push(entry),
                }
            },
        }
    }

    /// Whether the repository directory `name` of the git cache is still in use.
    pub fn keeps_repo(&self, name: &str) -> (r: bool)
        ensures
            r == has_group(self.git@, name@),
    {
        find_group(&self.git, name)
    }

    /// Whether the revision directory `rev` under the repository directory `repo`
    /// of the git cache belongs to a current package.
    pub fn keeps_git_item(&self, repo: &str, rev: &str) -> (r: bool)
        ensures
            r == (lookup(self.git@, repo@, rev@) is Some),
    {
        find_dir(&self.git, repo, rev).is_some()
    }

    /// Whether the registry directory `name` is still in use.
    pub fn keeps_registry(&self, name: &str) -> (r: bool)
        ensures
            r == has_group(self.registry@, name@),
    {
        find_group(&self.registry, name)
    }

    /// Whether the entry `item` (a package directory, or its `.crate` archive) under
    /// the registry directory `registry` belongs to a current package.
    pub fn keeps_registry_item(&self, registry: &str, item: &str) -> (r: bool)
        ensures
            r == (lookup(self.registry@, registry@, item@) is Some || lookup(
                self.registry@,
                registry@,
                archive_stem(item@),
            ) is Some),
    {
        if find_dir(&self.registry, registry, item).is_some() {
            return true;
        }
        let stem = strip_archive(item);
        find_dir(&self.registry, registry, stem.as_str()).is_some()
    }
}

/// The feature string of one resolved package.
pub struct PackageFeatures {
    pub id: String,
    pub features: String,
}

/// The feature string recorded for package `id`; a later record replaces an earlier one.
pub open spec fn features_of(v: Seq<PackageFeatures>, id: Seq<char>) -> Option<Seq<char>>
    decreases v.len(),
{
    if v.len() == 0 {
        None
    } else if v.last().id@ == id {
        Some(v.last().features@)
    } else {
        features_of(v.drop_last(), id)
    }
}

/// What the dependency resolution gives: the cached packages in use, the build
/// output directory, and each package's activated features.
pub struct Metadata {
    pub packages: PackageSet,
    pub target_directory: String,
    pub package_features: Vec<PackageFeatures>,
}

/// The feature string that the current resolution gives the package whose source a
/// dependency path lies in: the path must lie under the cache root `home`, in
/// `git/{any}/{repository}/{revision}/..` or `registry/{any}/{registry}/{package}/..`
/// of a package in use. None when it lies elsewhere or its package is no longer
/// in use.
pub open spec fn dep_features(home: Seq<char>, meta: Metadata, dep: Seq<char>) -> Option<Seq<char>> {
    let hp = components(meta.packages.windows, home);
    let dp = components(meta.packages.windows, dep);
    if hp.len() <= dp.len() && dp.subrange(0, hp.len() as int) == hp {
        let rest = dp.subrange(hp.len() as int, dp.len() as int);
        if rest.len() >= 4 && rest[2] is Name && rest[3] is Name {
            let a = rest[2]->Name_0;
            let b = rest[3]->Name_0;
            let found = if rest[0] == Part::Name("git"@) {
                lookup(meta.packages.git@, a, b)
            } else if rest[0] == Part::Name("registry"@) {
                lookup(meta.packages.registry@, a, b)
            } else {
                None
            };
            match found {
                Some(id) => features_of(meta.package_features@, id),
                None => None,
            }
        } else {
            None
        }
    } else {
        None
    }
}

fn same_part(a: &PathPart, b: &PathPart) -> (r: bool)
    ensures
        r == (a@ == b@),
{
    match (a, b) {
        (PathPart::Disk(x), PathPart::Disk(y)) => *x == *y,
        (PathPart::RootDir, PathPart::RootDir) => true,
        (PathPart::CurDir, PathPart::CurDir) => true,
        (PathPart::ParentDir, PathPart::ParentDir) => true,
        (PathPart::Normal(x), PathPart::Normal(y)) => same_text(x.as_str(), y.as_str()),
        _ => false,
    }
}

fn is_name(p: &PathPart, name: &str) -> (r: bool)
    ensures
        r == (p@ == Part::Name(name@)),
{
    match p {
        PathPart::Normal(x) => same_text(x.as_str(), name),
        _ => false,
    }
}

impl Metadata {
    /// Metadata with no packages yet, for paths of Windows or of Unix.
    pub fn new(target_directory: String, windows: bool) -> (r: Metadata)
        ensures
            r.packages.windows == windows,
            r.target_directory == target_directory,
            r.packages.registry@.len() == 0,
            r.packages.git@.len() == 0,
            r.package_features@.len() == 0,
    {
        Metadata { packages: PackageSet::new(windows), target_directory, package_features: Vec::new() }
    }

    /// Records the features that the resolution activates for package `id`.
    pub fn add_resolve_node(&mut self, id: String, features: &Vec<String>)
        ensures
            final(self).packages == old(self).packages,
            final(self).target_directory == old(self).target_directory,
            final(self).package_features@.len() == old(self).package_features@.len() + 1,
            final(self).package_features@.drop_last() == old(self).package_features@,
            final(self).package_features@.last().id == id,
            final(self).package_features@.last().features@ == feature_string(features@),
    {
        let f = build_feature_string(features);
        self.package_features.push(PackageFeatures { id, features: f });
    }

    fn features_for(&self, id: &str) -> (r: Option<String>)
        ensures
            r is None <==> features_of(self.package_features@, id@) is None,
            r matches Some(f) ==> features_of(self.package_features@, id@) == Some(f@),
    {
        let mut m = self.package_features.len();
        assert(self.package_features@.subrange(0, m as int) == self.package_features@);
        while m > 0
            invariant
                m <= self.package_features@.len(),
                features_of(self.package_features@, id@) == features_of(
                    self.package_features@.subrange(0, m as int),
                    id@,
                ),
            decreases m,
        {
            assert(self.package_features@.subrange(0, m as int).drop_last()
                == self.package_features@.subrange(0, m - 1));
            let rec = &self.package_features[m - 1];
            if same_text(rec.id.as_str(), id) {
                let f = rec.features.clone();
                return Some(f);
            }
            m -= 1;
        }
        None
    }

    /// The feature string that the current resolution gives the package whose
    /// sources hold the dependency path `dep`; `None` when the path lies in no
    /// package of the global cache that is still in use.
    pub fn get_dep_features(&self, cargo_home: &str, dep: &str) -> (r: Option<String>)
        ensures
            r is None <==> dep_features(cargo_home@, *self, dep@) is None,
            r matches Some(f) ==> dep_features(cargo_home@, *self, dep@) == Some(f@),
    {
        let hp = path_components(self.packages.windows, cargo_home);
        let dp = path_components(self.packages.windows, dep);
        let ghost hv = parts_view(hp@);
        let ghost dv = parts_view(dp@);
        let h = hp.len();
        if h > dp.len() {
            return None;
        }
        let mut i: usize = 0;
        while i < h
            invariant
                h == hp@.len(),
                h <= dp@.len(),
                hv == parts_view(hp@),
                dv == parts_view(dp@),
                hv == components(self.packages.windows, cargo_home@),
                dv == components(self.packages.windows, dep@),
                i <= h,
                forall|j: int| 0 <= j < i ==> dv[j] == hv[j],
            decreases h - i,
        {
            if !same_part(&hp[i], &dp[i]) {
                assert(dv.subrange(0, h as int)[i as int] != hv[i as int]);
                assert(dv.subrange(0, h as int) != hv);
                return None;
            }
            i += 1;
        }
        assert(dv.subrange(0, h as int) == hv);
        let ghost rest = dv.subrange(h as int, dv.len() as int);
        if dp.len() - h < 4 {
            return None;
        }
        assert(rest[2] == dv[h + 2]);
        assert(rest[3] == dv[h + 3]);
        assert(rest[0] == dv[h as int]);
        let a = match name_of(&dp[h + 2]) {
            Some(a) => a,
            None => return None,
        };
        let b = match name_of(&dp[h + 3]) {
            Some(b) => b,
            None => return None,
        };
        let found = if is_name(&dp[h], "git") {
            find_dir(&self.packages.git, a.as_str(), b.as_str())
        } else if is_name(&dp[h], "registry") {
            find_dir(&self.packages.registry, a.as_str(), b.as_str())
        } else {
            None
        };
        match found {
            Some(id) => self.features_for(id.as_str()),
            None => None,
        }
    }
}

/// Sweeping the global cache twice deletes nothing the second time: every
/// repository directory, revision directory, registry directory and registry entry
/// that the first sweep left is one that the inventory keeps.
pub proof fn lemma_cache_sweep_idempotent(
    set: PackageSet,
    repos: Seq<Seq<char>>,
    repos_left: Seq<Seq<char>>,
    registries: Seq<Seq<char>>,
    registries_left: Seq<Seq<char>>,
    registry: Seq<char>,
    items: Seq<Seq<char>>,
    items_left: Seq<Seq<char>>,
    repo: Seq<char>,
    revs: Seq<Seq<char>>,
    revs_left: Seq<Seq<char>>,
)
    requires
        revs_left == revs.filter(|r: Seq<char>| lookup(set.git@, repo, r) is Some),
        repos_left == repos.filter(|r: Seq<char>| has_group(set.git@, r)),
        registries_left == registries.filter(|r: Seq<char>| has_group(set.registry@, r)),
        items_left == items.filter(
            |i: Seq<char>|
                lookup(set.registry@, registry, i) is Some || lookup(set.registry@, registry, archive_stem(i)) is Some,
        ),
    ensures
        forall|m: int| 0 <= m < repos_left.len() ==> has_group(set.git@, #[trigger] repos_left[m]),
        forall|m: int| 0 <= m < revs_left.len() ==> lookup(set.git@, repo, #[trigger] revs_left[m]) is Some,
        forall|m: int| 0 <= m < registries_left.len() ==> has_group(set.registry@, #[trigger] registries_left[m]),
        forall|m: int|
            0 <= m < items_left.len() ==> lookup(set.registry@, registry, #[trigger] items_left[m]) is Some
                || lookup(set.registry@, registry, archive_stem(items_left[m])) is Some,
{
    broadcast use vstd::seq_lib::group_filter_ensures;

}

} // verus!
