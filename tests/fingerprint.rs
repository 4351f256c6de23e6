use cargo_ci_precache::{DepFingerprint, Fingerprint, HashTarget, LocalFingerprint};

const LINUX_64: HashTarget = HashTarget { windows: false, pointer_64: true, big_endian: false };
const WINDOWS_64: HashTarget = HashTarget { windows: true, pointer_64: true, big_endian: false };
const WINDOWS_32: HashTarget = HashTarget { windows: true, pointer_64: false, big_endian: false };

fn s(x: &str) -> String {
    x.to_string()
}

fn recorded() -> Fingerprint {
    Fingerprint {
        rustc: 5115962679530443550,
        features: s("[]"),
        target: 16343417806311904822,
        profile: 16668067249205866872,
        path: 16210749786564134395,
        deps: vec![DepFingerprint {
            pkg_id: 17671881657559241013,
            name: s("winapi"),
            public: false,
            fingerprint: 17268406378410745745,
        }],
        local: vec![LocalFingerprint::CheckDepInfo {
            dep_info: s("debug\\.fingerprint\\home-ce6f4bfb9c7db56a\\dep-lib-home"),
        }],
        rustflags: vec![],
        metadata: 2057089606025779430,
        config: 0,
    }
}

#[test]
fn fingerprint_fingerprint_hash() {
    let f = recorded();
    assert_eq!(f.get_hash(LINUX_64), 16826414366161678886);
}

#[test]
fn fingerprint_hash_x86_64_windows() {
    assert_eq!(recorded().get_hash(WINDOWS_64), 15480347459326620707);
}

#[test]
fn fingerprint_hash_x86_windows() {
    assert_eq!(recorded().get_hash(WINDOWS_32), 10502132094877413932);
}

fn windows_record() -> Fingerprint {
    Fingerprint {
        rustc: 11,
        features: s("[\"default\", \"std\"]"),
        target: 12,
        profile: 14,
        path: 13,
        deps: vec![
            DepFingerprint { pkg_id: 21, name: s("serde"), public: true, fingerprint: 22 },
            DepFingerprint { pkg_id: 23, name: s("itoa"), public: false, fingerprint: 24 },
        ],
        local: vec![
            LocalFingerprint::Precalculated(s("1.0.0")),
            LocalFingerprint::CheckDepInfo { dep_info: s("C:\\Users\\u\\proj\\target\\debug\\dep-lib") },
            LocalFingerprint::RerunIfChanged { output: s("c:/out"), paths: vec![s("build.rs"), s("..\\é\\x\\")] },
            LocalFingerprint::RerunIfEnvChanged { var: s("CC"), val: None },
            LocalFingerprint::RerunIfEnvChanged { var: s("CFLAGS"), val: Some(s("-O2")) },
        ],
        rustflags: vec![s("-C"), s("opt-level=2")],
        metadata: 15,
        config: 16,
    }
}

#[test]
fn hash_with_drive_prefixes_on_each_target() {
    assert_eq!(windows_record().get_hash(WINDOWS_64), 2208789636464707309);
    assert_eq!(windows_record().get_hash(WINDOWS_32), 2202071429485960906);
    assert_eq!(windows_record().get_hash(LINUX_64), 8424014467878247979);
}

#[test]
fn hash_on_a_big_endian_32_bit_target() {
    let f = Fingerprint {
        rustc: 1,
        features: s("[]"),
        target: 2,
        profile: 4,
        path: 3,
        deps: vec![],
        local: vec![],
        rustflags: vec![],
        metadata: 5,
        config: 6,
    };
    let t = HashTarget { windows: false, pointer_64: false, big_endian: true };
    assert_eq!(f.get_hash(t), 17104962989268178069);
    let mut expected: Vec<u8> = Vec::new();
    expected.extend_from_slice(&1u64.to_be_bytes());
    expected.extend_from_slice(b"[]\xff");
    for x in [2u64, 3, 4] {
        expected.extend_from_slice(&x.to_be_bytes());
    }
    expected.extend_from_slice(&0u32.to_be_bytes());
    for x in [5u64, 6] {
        expected.extend_from_slice(&x.to_be_bytes());
    }
    expected.extend_from_slice(&0u32.to_be_bytes());
    expected.extend_from_slice(&0u32.to_be_bytes());
    assert_eq!(f.encode(t), expected);
}

#[test]
fn windows_separators_and_prefix() {
    let mk = |p: &str| Fingerprint {
        rustc: 0,
        features: s("[]"),
        target: 0,
        profile: 0,
        path: 0,
        deps: vec![],
        local: vec![LocalFingerprint::CheckDepInfo { dep_info: s(p) }],
        rustflags: vec![],
        metadata: 0,
        config: 0,
    };
    assert_eq!(mk("a\\b").get_hash(WINDOWS_64), mk("a/b").get_hash(WINDOWS_64));
    assert_ne!(mk("a\\b").get_hash(LINUX_64), mk("a/b").get_hash(LINUX_64));
    assert_eq!(mk("c:\\x").get_hash(WINDOWS_64), mk("C:/x").get_hash(WINDOWS_64));
    assert_ne!(mk("C:\\x").get_hash(WINDOWS_64), mk("\\x").get_hash(WINDOWS_64));
}

#[test]
fn hash_of_record_without_dependencies() {
    let f = Fingerprint {
        rustc: 1,
        features: s("[]"),
        target: 2,
        profile: 4,
        path: 3,
        deps: vec![],
        local: vec![],
        rustflags: vec![],
        metadata: 5,
        config: 6,
    };
    assert_eq!(f.get_hash(LINUX_64), 18249264368477263959);
}

#[test]
fn hash_of_record_with_every_local_kind() {
    let f = Fingerprint {
        rustc: 11,
        features: s("[\"default\", \"std\"]"),
        target: 12,
        profile: 14,
        path: 13,
        deps: vec![
            DepFingerprint { pkg_id: 21, name: s("serde"), public: true, fingerprint: 22 },
            DepFingerprint { pkg_id: 23, name: s("itoa"), public: false, fingerprint: 24 },
        ],
        local: vec![
            LocalFingerprint::Precalculated(s("1.0.0")),
            LocalFingerprint::CheckDepInfo { dep_info: s("/home/u/./proj//target/../dep-lib") },
            LocalFingerprint::RerunIfChanged { output: s("./out"), paths: vec![s("build.rs"), s("../é/x/")] },
            LocalFingerprint::RerunIfEnvChanged { var: s("CC"), val: None },
            LocalFingerprint::RerunIfEnvChanged { var: s("CFLAGS"), val: Some(s("-O2")) },
        ],
        rustflags: vec![s("-C"), s("opt-level=2")],
        metadata: 15,
        config: 16,
    };
    assert_eq!(f.get_hash(LINUX_64), 17663431984914769837);
}

#[test]
fn hash_is_reproducible() {
    assert_eq!(recorded().get_hash(LINUX_64), recorded().get_hash(LINUX_64));
}

#[test]
fn hash_depends_on_field_order_and_values() {
    let base = recorded().get_hash(LINUX_64);
    let mut swapped = recorded();
    swapped.path = recorded().profile;
    swapped.profile = recorded().path;
    assert_ne!(swapped.get_hash(LINUX_64), base);
    let mut other_dep = recorded();
    other_dep.deps[0].fingerprint += 1;
    assert_ne!(other_dep.get_hash(LINUX_64), base);
    let mut public = recorded();
    public.deps[0].public = true;
    assert_ne!(public.get_hash(LINUX_64), base);
}

#[test]
fn hash_input_layout() {
    let f = Fingerprint {
        rustc: 1,
        features: s("a"),
        target: 2,
        profile: 4,
        path: 3,
        deps: vec![],
        local: vec![],
        rustflags: vec![],
        metadata: 5,
        config: 6,
    };
    let mut expected: Vec<u8> = Vec::new();
    expected.extend_from_slice(&1u64.to_le_bytes());
    expected.extend_from_slice(b"a\xff");
    for x in [2u64, 3, 4, 0, 5, 6, 0, 0] {
        expected.extend_from_slice(&x.to_le_bytes());
    }
    assert_eq!(f.encode(LINUX_64), expected);
}

#[test]
fn path_components_are_hashed_one_by_one() {
    let mk = |p: &str| Fingerprint {
        rustc: 0,
        features: s("[]"),
        target: 0,
        profile: 0,
        path: 0,
        deps: vec![],
        local: vec![LocalFingerprint::CheckDepInfo { dep_info: s(p) }],
        rustflags: vec![],
        metadata: 0,
        config: 0,
    };
    assert_eq!(mk("/a/b").get_hash(LINUX_64), mk("/a//./b/").get_hash(LINUX_64));
    assert_ne!(mk("/a/b").get_hash(LINUX_64), mk("a/b").get_hash(LINUX_64));
    assert_ne!(mk("./a").get_hash(LINUX_64), mk("a").get_hash(LINUX_64));
    assert_ne!(mk("a/../b").get_hash(LINUX_64), mk("b").get_hash(LINUX_64));
}
