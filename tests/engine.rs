use cargo_ci_precache::{
    mark_stale, propagate, DepFingerprint, Fingerprint, HashTarget, LocalFingerprint, Metadata, StaleSeeds,
    UnitRecord,
};

const HOST: HashTarget = HashTarget { windows: false, pointer_64: true, big_endian: false };

fn s(x: &str) -> String {
    x.to_string()
}

const REGISTRY: &str = "registry+https://github.com/rust-lang/crates.io-index";
const HOME: &str = "/home/u/.cargo";
const SRC: &str = "/home/u/.cargo/registry/src/index-abc";

fn record(tag: u64, features: &str, deps: &[&UnitRecord]) -> Fingerprint {
    Fingerprint {
        rustc: 7,
        features: s(features),
        target: tag,
        profile: 3,
        path: tag * 31,
        deps: deps
            .iter()
            .map(|d| DepFingerprint {
                pkg_id: 100 + d.fingerprint.target,
                name: d.meta_hash.clone(),
                public: false,
                fingerprint: d.fingerprint.get_hash(HOST),
            })
            .collect(),
        local: vec![LocalFingerprint::CheckDepInfo { dep_info: format!("deps/dep-lib-{}", tag) }],
        rustflags: vec![],
        metadata: tag + 1000,
        config: 0,
    }
}

fn unit(meta_hash: &str, tag: u64, features: &str, deps: &[&UnitRecord]) -> UnitRecord {
    UnitRecord { meta_hash: s(meta_hash), fingerprint: record(tag, features, deps) }
}

fn package(meta: &mut Metadata, dir: &str, features: &[&str]) {
    let id = format!("{} (registry+https://github.com/rust-lang/crates.io-index)", dir);
    meta.packages.add_package(&Some(s(REGISTRY)), &format!("{}/{}/Cargo.toml", SRC, dir), id.clone());
    meta.add_resolve_node(id, &features.iter().map(|f| s(f)).collect());
}

fn dep_file(seeds: &mut StaleSeeds, meta: &Metadata, stem: &str, source: &str) {
    let contents = format!("/proj/target/debug/deps/{}.rlib: {} /other.rs\n", stem, source);
    assert!(seeds.record_dep_file(&contents, stem, HOME, meta));
}

fn removed(r: &cargo_ci_precache::RemovalSet, stems: &[&str]) -> Vec<bool> {
    stems.iter().map(|st| r.removes(st)).collect()
}

#[test]
fn propagation_reaches_exactly_the_dependents() {
    // 0 -> 1 -> 2, 3 -> 4, 5 alone; edges lead from a node to those that depend on it.
    let adj = vec![vec![1], vec![2], vec![], vec![4], vec![], vec![]];
    assert_eq!(propagate(&adj, &vec![true, false, false, false, false, false]), vec![true, true, true, false, false, false]);
    assert_eq!(propagate(&adj, &vec![false, false, false, true, false, true]), vec![false, false, false, true, true, true]);
    assert_eq!(propagate(&adj, &vec![false; 6]), vec![false; 6]);
    let cycle = vec![vec![1], vec![0, 2], vec![1]];
    assert_eq!(propagate(&cycle, &vec![false, false, true]), vec![true, true, true]);
}

#[test]
fn order_of_units_does_not_matter() {
    let c = unit("c1", 1, "[]", &[]);
    let b = unit("b1", 2, "[]", &[&c]);
    let a = unit("a1", 3, "[]", &[&b]);
    let other = unit("o1", 4, "[]", &[]);
    let mut seeds = StaleSeeds::new();
    seeds.record(s("c1"), None);
    let forward = mark_stale(&vec![unit("c1", 1, "[]", &[]), unit("b1", 2, "[]", &[&c]), unit("a1", 3, "[]", &[&b]), unit("o1", 4, "[]", &[])], &seeds, HOST);
    let backward = mark_stale(&vec![other, a, b, c], &seeds, HOST);
    let stems = ["x-c1", "x-b1", "x-a1", "x-o1"];
    assert_eq!(removed(&forward, &stems), vec![true, true, true, false]);
    assert_eq!(removed(&backward, &stems), vec![true, true, true, false]);
}

#[test]
fn second_sweep_removes_nothing() {
    let old = unit("old", 1, "[]", &[]);
    let new = unit("new", 2, "[]", &[]);
    let top = unit("top", 3, "[]", &[&old]);
    let mut seeds = StaleSeeds::new();
    seeds.record(s("old"), None);
    seeds.record(s("new"), Some(s("[]")));
    let units = vec![unit("old", 1, "[]", &[]), unit("new", 2, "[]", &[]), top];
    let first = mark_stale(&units, &seeds, HOST);
    assert!(first.removes("libold-old") && first.removes("top-top") && !first.removes("new-new"));
    let left: Vec<UnitRecord> = units.into_iter().filter(|u| !first.contains(&u.meta_hash)).collect();
    let mut seeds2 = StaleSeeds::new();
    seeds2.record(s("new"), Some(s("[]")));
    let second = mark_stale(&left, &seeds2, HOST);
    assert!(second.hashes.is_empty());
    assert_eq!(left.len(), 1);
    let _ = new;
}

#[test]
fn dangling_dependency_hash_is_no_edge() {
    let mut lone = unit("lone", 1, "[]", &[]);
    lone.fingerprint.deps.push(DepFingerprint { pkg_id: 1, name: s("gone"), public: false, fingerprint: 42 });
    let mut seeds = StaleSeeds::new();
    seeds.record(s("gone"), None);
    let r = mark_stale(&vec![lone], &seeds, HOST);
    assert!(r.hashes.is_empty());
}

#[test]
fn one_dep_update() {
    // single_dep depends on cfg_if; cfg_if went from 0.1.10 to 1.0.0.
    let mut meta = Metadata::new(s("/proj/target"), false);
    package(&mut meta, "cfg-if-1.0.0", &[]);
    meta.packages.add_package(&None, "/proj/Cargo.toml", s("single_dep 0.1.0 (path+file:///proj)"));
    let mut seeds = StaleSeeds::new();
    dep_file(&mut seeds, &meta, "cfg_if-0aa", &format!("{}/cfg-if-0.1.10/src/lib.rs", SRC));
    dep_file(&mut seeds, &meta, "cfg_if-1bb", &format!("{}/cfg-if-1.0.0/src/lib.rs", SRC));
    dep_file(&mut seeds, &meta, "single_dep-2cc", "/proj/src/lib.rs");
    let old = unit("0aa", 1, "[]", &[]);
    let new = unit("1bb", 2, "[]", &[]);
    let proj = unit("2cc", 3, "[]", &[&new]);
    let r = mark_stale(&vec![old, new, proj], &seeds, HOST);
    let stems = ["libcfg_if-0aa", "cfg_if-0aa", "libcfg_if-1bb", "cfg_if-1bb", "libsingle_dep-2cc"];
    assert_eq!(removed(&r, &stems), vec![true, true, false, false, true]);
}

#[test]
fn two_deps_one_update() {
    // two_deps depends on cfg_if and itoa; only cfg_if changed version.
    let mut meta = Metadata::new(s("/proj/target"), false);
    package(&mut meta, "cfg-if-1.0.0", &[]);
    package(&mut meta, "itoa-0.4.6", &["default", "std"]);
    let mut seeds = StaleSeeds::new();
    dep_file(&mut seeds, &meta, "cfg_if-0aa", &format!("{}/cfg-if-0.1.10/src/lib.rs", SRC));
    dep_file(&mut seeds, &meta, "cfg_if-1bb", &format!("{}/cfg-if-1.0.0/src/lib.rs", SRC));
    dep_file(&mut seeds, &meta, "itoa-3dd", &format!("{}/itoa-0.4.6/src/lib.rs", SRC));
    dep_file(&mut seeds, &meta, "two_deps-2cc", "/proj/src/lib.rs");
    let old = unit("0aa", 1, "[]", &[]);
    let new = unit("1bb", 2, "[]", &[]);
    let itoa = unit("3dd", 4, "[\"default\", \"std\"]", &[]);
    let proj = unit("2cc", 3, "[]", &[&new, &itoa]);
    let r = mark_stale(&vec![old, new, itoa, proj], &seeds, HOST);
    let stems = ["libcfg_if-0aa", "libcfg_if-1bb", "libitoa-3dd", "two_deps-2cc"];
    assert_eq!(removed(&r, &stems), vec![true, false, false, true]);
}

#[test]
fn nested_dep_propagate() {
    // nested_dep -> log -> cfg_if; cfg_if changed version, log did not, itoa is a sibling.
    let mut meta = Metadata::new(s("/proj/target"), false);
    package(&mut meta, "cfg-if-1.0.0", &[]);
    package(&mut meta, "log-0.4.11", &[]);
    package(&mut meta, "itoa-0.4.6", &[]);
    let mut seeds = StaleSeeds::new();
    dep_file(&mut seeds, &meta, "cfg_if-0aa", &format!("{}/cfg-if-0.1.10/src/lib.rs", SRC));
    dep_file(&mut seeds, &meta, "cfg_if-1bb", &format!("{}/cfg-if-1.0.0/src/lib.rs", SRC));
    dep_file(&mut seeds, &meta, "log-4ee", &format!("{}/log-0.4.11/src/lib.rs", SRC));
    dep_file(&mut seeds, &meta, "log-5ff", &format!("{}/log-0.4.11/src/lib.rs", SRC));
    dep_file(&mut seeds, &meta, "itoa-3dd", &format!("{}/itoa-0.4.6/src/lib.rs", SRC));
    let old_c = unit("0aa", 1, "[]", &[]);
    let new_c = unit("1bb", 2, "[]", &[]);
    let old_log = unit("4ee", 5, "[]", &[&old_c]);
    let new_log = unit("5ff", 6, "[]", &[&new_c]);
    let itoa = unit("3dd", 4, "[]", &[]);
    let old_proj = unit("6aa", 7, "[]", &[&old_log, &itoa]);
    let units = vec![old_c, new_c, old_log, new_log, itoa, old_proj];
    // The old project unit's own dep-info file is gone; only the chain marks it.
    let r = mark_stale(&units, &seeds, HOST);
    let stems = ["libcfg_if-0aa", "liblog-4ee", "nested_dep-6aa", "libcfg_if-1bb", "liblog-5ff", "libitoa-3dd"];
    assert_eq!(removed(&r, &stems), vec![true, true, true, false, false, false]);
}

#[test]
fn one_dep_feature_change() {
    // itoa keeps its version; the resolution now activates its "std" feature.
    let mut meta = Metadata::new(s("/proj/target"), false);
    package(&mut meta, "itoa-0.4.6", &["std"]);
    let mut seeds = StaleSeeds::new();
    dep_file(&mut seeds, &meta, "itoa-0aa", &format!("{}/itoa-0.4.6/src/lib.rs", SRC));
    dep_file(&mut seeds, &meta, "itoa-1bb", &format!("{}/itoa-0.4.6/src/lib.rs", SRC));
    assert!(seeds.outdated.is_empty());
    let old = unit("0aa", 1, "[]", &[]);
    let new = unit("1bb", 2, "[\"std\"]", &[]);
    assert!(seeds.is_seed(&old));
    assert!(!seeds.is_seed(&new));
    let r = mark_stale(&vec![old, new], &seeds, HOST);
    assert_eq!(removed(&r, &["libitoa-0aa", "libitoa-1bb"]), vec![true, false]);
}

#[test]
fn build_script_update() {
    // bitflags has a build script: compiling it, running it and the library are
    // three units under two or more metadata hashes; all old ones go together.
    let mut meta = Metadata::new(s("/proj/target"), false);
    package(&mut meta, "bitflags-1.2.1", &["default"]);
    let mut seeds = StaleSeeds::new();
    dep_file(&mut seeds, &meta, "build_script_build-0aa", &format!("{}/bitflags-1.2.0/build.rs", SRC));
    dep_file(&mut seeds, &meta, "build_script_build-1bb", &format!("{}/bitflags-1.2.1/build.rs", SRC));
    let old_build = unit("0aa", 1, "[\"default\"]", &[]);
    let old_run = unit("2cc", 2, "[\"default\"]", &[&old_build]);
    let old_lib = unit("3dd", 3, "[\"default\"]", &[&old_run]);
    let new_build = unit("1bb", 4, "[\"default\"]", &[]);
    let new_run = unit("4ee", 5, "[\"default\"]", &[&new_build]);
    let new_lib = unit("5ff", 6, "[\"default\"]", &[&new_run]);
    let r = mark_stale(&vec![new_lib, old_lib, new_run, old_run, new_build, old_build], &seeds, HOST);
    let stems = ["bitflags-0aa", "bitflags-2cc", "libbitflags-3dd", "bitflags-1bb", "bitflags-4ee", "libbitflags-5ff"];
    assert_eq!(removed(&r, &stems), vec![true, true, true, false, false, false]);
}

#[test]
fn dep_file_without_sources_records_nothing() {
    let meta = Metadata::new(s("/proj/target"), false);
    let mut seeds = StaleSeeds::new();
    assert!(!seeds.record_dep_file("garbage", "x-0aa", HOME, &meta));
    assert!(seeds.outdated.is_empty() && seeds.features.is_empty());
}

fn bare(meta_hash: &str, features: &str, dep_hashes: &[u64]) -> UnitRecord {
    UnitRecord {
        meta_hash: s(meta_hash),
        fingerprint: Fingerprint {
            rustc: 0,
            features: s(features),
            target: 0,
            profile: 0,
            path: 0,
            deps: dep_hashes
                .iter()
                .map(|h| DepFingerprint { pkg_id: 0, name: s("d"), public: false, fingerprint: *h })
                .collect(),
            local: vec![],
            rustflags: vec![],
            metadata: 0,
            config: 0,
        },
    }
}

#[test]
fn engine_on_given_hashes() {
    // Units 0..4 with hashes 10, 20, 30, 40, 50; 1 depends on 0, 2 on 1, 4 on 3.
    let units = vec![
        bare("a", "[]", &[]),
        bare("b", "[]", &[10]),
        bare("c", "[]", &[20, 99]),
        bare("d", "[]", &[]),
        bare("e", "[]", &[40]),
    ];
    let hashes = vec![10, 20, 30, 40, 50];
    let mut seeds = StaleSeeds::new();
    seeds.record(s("b"), None);
    let r = cargo_ci_precache::mark_stale_hashed(&units, &hashes, &seeds);
    let stems = ["x-a", "x-b", "x-c", "x-d", "x-e"];
    assert_eq!(removed(&r, &stems), vec![false, true, true, false, false]);
    // A feature mismatch on "d" marks "e" as well.
    seeds.record(s("d"), Some(s("[\"std\"]")));
    let r = cargo_ci_precache::mark_stale_hashed(&units, &hashes, &seeds);
    assert_eq!(removed(&r, &stems), vec![false, true, true, true, true]);
}

#[test]
fn hash_clash_resolves_to_the_last_unit() {
    // Units 0 and 1 share hash 7; a dependency on 7 is an edge from unit 1 only.
    let units = vec![bare("a", "[]", &[]), bare("b", "[]", &[]), bare("c", "[]", &[7])];
    let hashes = vec![7, 7, 8];
    let mut seeds = StaleSeeds::new();
    seeds.record(s("a"), None);
    let r = cargo_ci_precache::mark_stale_hashed(&units, &hashes, &seeds);
    assert_eq!(removed(&r, &["x-a", "x-b", "x-c"]), vec![true, false, false]);
    let mut seeds = StaleSeeds::new();
    seeds.record(s("b"), None);
    let r = cargo_ci_precache::mark_stale_hashed(&units, &hashes, &seeds);
    assert_eq!(removed(&r, &["x-a", "x-b", "x-c"]), vec![false, true, true]);
}

#[test]
fn later_feature_record_for_a_hash_wins() {
    let u = bare("h", "[\"std\"]", &[]);
    let mut seeds = StaleSeeds::new();
    seeds.record(s("h"), Some(s("[]")));
    assert!(seeds.is_seed(&u));
    seeds.record(s("h"), Some(s("[\"std\"]")));
    assert!(!seeds.is_seed(&u));
    seeds.record(s("h"), None);
    assert!(seeds.is_seed(&u));
}

#[test]
fn removal_set_membership() {
    let r = cargo_ci_precache::RemovalSet { hashes: vec![s("0aa"), s("1bb")] };
    assert!(r.contains(&s("0aa")));
    assert!(!r.contains(&s("2cc")));
    assert!(r.removes("libcfg_if-1bb"));
    assert!(r.removes("1bb"));
    assert!(!r.removes("cfg_if-1bb-x"));
}

#[test]
fn edges_follow_the_target_hash() {
    let win32 = HashTarget { windows: true, pointer_64: false, big_endian: false };
    let mut base = unit("base", 1, "[]", &[]);
    base.fingerprint.local = vec![LocalFingerprint::CheckDepInfo { dep_info: s("debug\\.fingerprint\\base-1\\dep-lib-base") }];
    let mut top = unit("top", 2, "[]", &[]);
    top.fingerprint.deps.push(DepFingerprint {
        pkg_id: 1,
        name: s("base"),
        public: false,
        fingerprint: base.fingerprint.get_hash(win32),
    });
    let mut seeds = StaleSeeds::new();
    seeds.record(s("base"), None);
    let units = vec![base, top];
    let on_target = mark_stale(&units, &seeds, win32);
    assert!(on_target.removes("base-base") && on_target.removes("top-top"));
    let elsewhere = mark_stale(&units, &seeds, HOST);
    assert!(elsewhere.removes("base-base") && !elsewhere.removes("top-top"));
}
