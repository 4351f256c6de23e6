pub mod text;
pub mod names;
pub mod paths;
pub mod fingerprint;
pub mod graph;
pub mod stale;
pub mod depinfo;
pub mod meta;
pub mod target;

pub use depinfo::read_first_dep;
pub use fingerprint::{DepFingerprint, Fingerprint, HashTarget, LocalFingerprint};
pub use graph::propagate;
pub use meta::{build_feature_string, CachedPackage, Metadata, PackageSet, SourceKind};
pub use names::{extract_meta_hash, split_name_hash};
pub use stale::{mark_stale, mark_stale_hashed, FeatureRecord, RemovalSet, StaleSeeds, UnitRecord};
pub use target::{dep_file_entry, is_removable_top_file, Mode};
