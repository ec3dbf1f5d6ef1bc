//! Duplicate-file detection as a cascade of pure filters.
//!
//! Candidate files are bucketed by exact byte length, narrowed by the digest
//! of a window at the end and at the start of each file, confirmed by the
//! digest of the whole content, and finally split into one survivor and the
//! files to remove. Every stage takes an explicit mapping and returns a new
//! one; reading directories and files is left to the caller.

pub mod accounting;
pub mod buckets;
pub mod candidates;
pub mod config;
pub mod digest;
pub mod full;
pub mod group;
pub mod order;
pub mod partial;
pub mod roots;

pub use accounting::{resolve_group, DuplicateResult, Freed};
pub use buckets::{bucket_sizes, generate_stats, try_generate_stats};
pub use candidates::{find_candidate_files, EntryKind, FileIdentity, WalkEntry};
pub use config::{
    check_size, parse_bytes, parse_max_bytes, parse_min_bytes, parse_scansize_bytes,
    validate_settings, ConfigError, Settings, SizeError,
};
pub use digest::{checksum_to_hex, content_digest, ContentHasher};
pub use full::find_final_candidates;
pub use group::{duplicate_groups, group_by_digest, retain_frequent, HashGroup, Hashed};
pub use order::{compare_entries, DirSortOrder, Precedence, SortKey};
pub use partial::{
    eliminate_by_digest, eliminate_first_or_last_bytes_hash, hash_large_buckets, hash_samples,
    hashed_paths, scan_window, without_digest, Sample, ScanType, Window,
};
pub use roots::{get_directories, ResolvedRoot};
