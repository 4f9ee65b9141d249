//! Core data types shared across the crate.
use vstd::prelude::*;

verus! {

/// The views of a list of strings.
pub open spec fn strs(v: Seq<String>) -> Seq<Seq<char>> {
    v.map_values(|s: String| s@)
}

/// A single file discovered during the scan, with the metadata the cascade
/// needs before any bytes are read. `modified` is the modification time in
/// nanoseconds relative to the Unix epoch, where the platform reports one.
#[derive(Debug)]
pub struct FileEntry {
    pub path: String,
    pub size: u64,
    pub modified: Option<i128>,
}

impl FileEntry {
    /// A field-for-field copy.
    pub fn duplicate(&self) -> (r: FileEntry)
        ensures
            r.path@ == self.path@,
            r.size == self.size,
            r.modified == self.modified,
    {
        FileEntry { path: self.path.clone(), size: self.size, modified: self.modified }
    }
}

/// A group of paths that are not duplicates at all: they are the *same*
/// file on disk, reached through a hard link or (optionally) a followed
/// symlink. Reported separately from content duplicates because deleting
/// one would not reclaim any space.
#[derive(Debug)]
pub struct IdentityGroup {
    pub paths: Vec<String>,
    pub size: u64,
}

/// A group of paths whose full contents are byte-for-byte identical.
#[derive(Debug)]
pub struct DupeGroup {
    pub size: u64,
    pub hash: String,
    pub paths: Vec<String>,
}

/// `size * (copies - 1)`, saturating at `u64::MAX` (and 0 for no copies).
pub open spec fn reclaimable(size: u64, copies: nat) -> u64 {
    if copies == 0 {
        0
    } else if size * (copies - 1) > u64::MAX {
        u64::MAX
    } else {
        (size * (copies - 1)) as u64
    }
}

impl DupeGroup {
    /// Bytes that could be reclaimed by keeping exactly one copy.
    pub fn reclaimable_bytes(&self) -> (r: u64)
        ensures
            r == reclaimable(self.size, self.paths@.len()),
    {
        let extra: usize = if self.paths.len() == 0 { 0 } else { self.paths.len() - 1 };
        let r = match self.size.checked_mul(extra as u64) {
            Some(v) => v,
            None => u64::MAX,
        };
        proof {
            if self.paths@.len() > 0 {
                assert(extra == self.paths@.len() - 1);
            }
        }
        r
    }
}

/// Counters describing how much work the cascade skipped. This is the
/// headline number: almost no file should ever reach `fully_hashed`.
#[derive(Debug)]
pub struct CascadeStats {
    pub files_scanned: usize,
    pub identity_groups: usize,
    pub identity_files_skipped: usize,
    pub unique_size_files: usize,
    pub size_candidate_files: usize,
    pub sample_hashed: usize,
    pub unique_sample_files: usize,
    pub fully_hashed: usize,
    pub duplicate_groups: usize,
    pub duplicate_files: usize,
    pub reclaimable_bytes: u64,
}

impl CascadeStats {
    /// All counters zero.
    pub fn zero() -> (r: CascadeStats)
        ensures
            r == CascadeStats::spec_zero(),
    {
        CascadeStats {
            files_scanned: 0,
            identity_groups: 0,
            identity_files_skipped: 0,
            unique_size_files: 0,
            size_candidate_files: 0,
            sample_hashed: 0,
            unique_sample_files: 0,
            fully_hashed: 0,
            duplicate_groups: 0,
            duplicate_files: 0,
            reclaimable_bytes: 0,
        }
    }

    pub open spec fn spec_zero() -> CascadeStats {
        CascadeStats {
            files_scanned: 0,
            identity_groups: 0,
            identity_files_skipped: 0,
            unique_size_files: 0,
            size_candidate_files: 0,
            sample_hashed: 0,
            unique_sample_files: 0,
            fully_hashed: 0,
            duplicate_groups: 0,
            duplicate_files: 0,
            reclaimable_bytes: 0,
        }
    }
}

/// Full result of a scan: duplicate groups, identity groups, and stats.
#[derive(Debug)]
pub struct ScanReport {
    pub duplicate_groups: Vec<DupeGroup>,
    pub identity_groups: Vec<IdentityGroup>,
    pub stats: CascadeStats,
}

/// Strategy for choosing which file in a duplicate group survives a delete.
#[derive(Debug, Clone, Copy, PartialEq, Eq, Structural)]
pub enum KeepStrategy {
    /// Keep whichever path sorts first lexicographically.
    First,
    /// Keep the file with the oldest modification time.
    Oldest,
    /// Keep the file with the newest modification time.
    Newest,
    /// Keep the file whose path is shortest (ties broken lexicographically).
    ShortestPath,
}

} // verus!
