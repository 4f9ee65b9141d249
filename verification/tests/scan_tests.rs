use fdupe::cascade::{run_cascade, CascadeStage, DEFAULT_SAMPLE_SIZE};
use fdupe::hashing::{hex_of, sample_digest, sample_plan, ContentHasher, SamplePlan};
use fdupe::identity::split_by_identity;
use fdupe::model::{DupeGroup, FileEntry, ScanReport};
use fdupe::scan;
use fdupe::walk::ScanOptions;

/// One walked entry of an in-memory directory tree.
struct Entry {
    path: String,
    content: Vec<u8>,
    inode: u64,
    symlink: bool,
}

/// An in-memory directory tree: what a walk of the real one would report.
struct Tree {
    entries: Vec<Entry>,
    next_inode: u64,
}

impl Tree {
    fn new() -> Tree {
        Tree { entries: Vec::new(), next_inode: 1 }
    }

    fn write(&mut self, root: &str, rel: &str, content: &[u8]) -> String {
        let path = format!("{root}/{rel}");
        self.entries.push(Entry { path: path.clone(), content: content.to_vec(), inode: self.next_inode, symlink: false });
        self.next_inode += 1;
        path
    }

    fn link(&mut self, existing: &str, path: String, symlink: bool) {
        let (content, inode) = {
            let e = self.entries.iter().find(|e| e.path == existing).expect("existing entry");
            (e.content.clone(), e.inode)
        };
        self.entries.push(Entry { path, content, inode, symlink });
    }

    fn content_of(&self, path: &str) -> &[u8] {
        &self.entries.iter().find(|e| e.path == path).expect("walked entry").content
    }
}

fn digest_of(parts: &[&[u8]]) -> String {
    let mut h = ContentHasher::new();
    for p in parts {
        h.update(p);
    }
    h.finish_hex()
}

fn sample_of(content: &[u8], sample_size: u64) -> String {
    let plan = sample_plan(content.len() as u64, sample_size);
    match plan {
        SamplePlan::Whole => sample_digest(plan, content, &[]),
        SamplePlan::HeadTail { len, tail_start } => {
            let len = len as usize;
            let tail = tail_start as usize;
            sample_digest(plan, &content[..len], &content[tail..tail + len])
        }
    }
}

/// Scan the tree as the program scans a real one: filter the walked
/// entries, then drive the cascade, hashing what it asks for.
fn scan_tree(
    tree: &Tree,
    min_size: u64,
    follow_symlinks: bool,
    excludes: &[&str],
    sample_size: Option<u64>,
) -> Result<ScanReport, globset::Error> {
    let patterns: Vec<String> = excludes.iter().map(|s| s.to_string()).collect();
    let opts = ScanOptions::new(min_size, follow_symlinks, &patterns)?;
    let mut files = Vec::new();
    let mut keys = Vec::new();
    for e in &tree.entries {
        // A followed symlink is walked as the file it points at.
        let is_symlink = e.symlink && !follow_symlinks;
        if !opts.admits_entry(&e.path, is_symlink, true) {
            continue;
        }
        let size = e.content.len() as u64;
        if !opts.admits_size(size) {
            continue;
        }
        files.push(FileEntry { path: e.path.clone(), size, modified: None });
        keys.push(Some(e.inode));
    }
    let mut run = scan(files, keys, sample_size);
    loop {
        match run.stage() {
            CascadeStage::Finished => break,
            CascadeStage::Sampling => {
                let ss = run.sample_size();
                let hashes = run
                    .pending_files()
                    .iter()
                    .map(|f| Some(sample_of(tree.content_of(&f.path), ss)))
                    .collect();
                run.supply_sample_hashes(hashes);
            }
            CascadeStage::FullHashing => {
                let hashes =
                    run.pending_files().iter().map(|f| Some(digest_of(&[tree.content_of(&f.path)]))).collect();
                run.supply_full_hashes(hashes);
            }
        }
    }
    Ok(run.into_report())
}

fn scan_default(tree: &Tree) -> ScanReport {
    scan_tree(tree, 0, false, &[], None).expect("scan should succeed")
}

const ROOT: &str = "/tmp/scan-root";

#[test]
fn identical_files_are_reported_as_duplicates() {
    let mut t = Tree::new();
    t.write(ROOT, "a.txt", b"hello world");
    t.write(ROOT, "b.txt", b"hello world");

    let report = scan_default(&t);
    assert_eq!(report.duplicate_groups.len(), 1);
    assert_eq!(report.duplicate_groups[0].paths.len(), 2);
}

#[test]
fn same_size_different_content_is_not_a_duplicate() {
    let mut t = Tree::new();
    t.write(ROOT, "a.txt", b"aaaaaaaaaa");
    t.write(ROOT, "b.txt", b"bbbbbbbbbb");

    let report = scan_default(&t);
    assert!(
        report.duplicate_groups.is_empty(),
        "same-size different-content files must never be reported as duplicates"
    );
}

#[test]
fn empty_files_are_treated_as_duplicates_of_each_other() {
    let mut t = Tree::new();
    t.write(ROOT, "a.empty", b"");
    t.write(ROOT, "b.empty", b"");

    let report = scan_default(&t);
    assert_eq!(report.duplicate_groups.len(), 1);
    assert_eq!(report.duplicate_groups[0].size, 0);
}

#[test]
fn single_empty_file_is_not_a_duplicate() {
    let mut t = Tree::new();
    t.write(ROOT, "only.empty", b"");

    let report = scan_default(&t);
    assert!(report.duplicate_groups.is_empty());
}

#[test]
fn single_file_tree_has_no_duplicates() {
    let mut t = Tree::new();
    t.write(ROOT, "solo.txt", b"only file here");

    let report = scan_default(&t);
    assert!(report.duplicate_groups.is_empty());
    assert_eq!(report.stats.files_scanned, 1);
}

#[test]
fn empty_directory_has_no_files() {
    let t = Tree::new();
    let report = scan_default(&t);
    assert_eq!(report.stats.files_scanned, 0);
    assert!(report.duplicate_groups.is_empty());
}

#[test]
fn nested_directories_are_scanned_recursively() {
    let mut t = Tree::new();
    t.write(ROOT, "top.txt", b"nested duplicate content");
    t.write(ROOT, "a/b/c/deep.txt", b"nested duplicate content");
    t.write(ROOT, "a/other.txt", b"unrelated content here");

    let report = scan_default(&t);
    assert_eq!(report.duplicate_groups.len(), 1);
    assert_eq!(report.duplicate_groups[0].paths.len(), 2);
    assert_eq!(report.stats.files_scanned, 3);
}

#[test]
fn three_way_duplicate_group() {
    let mut t = Tree::new();
    t.write(ROOT, "1.txt", b"triplicate payload data");
    t.write(ROOT, "2.txt", b"triplicate payload data");
    t.write(ROOT, "3.txt", b"triplicate payload data");

    let report = scan_default(&t);
    assert_eq!(report.duplicate_groups.len(), 1);
    assert_eq!(report.duplicate_groups[0].paths.len(), 3);
    assert_eq!(report.stats.duplicate_files, 3);
}

#[test]
fn multiple_independent_duplicate_groups() {
    let mut t = Tree::new();
    t.write(ROOT, "a1.txt", b"group A content here");
    t.write(ROOT, "a2.txt", b"group A content here");
    t.write(ROOT, "b1.txt", b"group B content different");
    t.write(ROOT, "b2.txt", b"group B content different");
    t.write(ROOT, "unique.txt", b"nothing matches me at all");

    let report = scan_default(&t);
    assert_eq!(report.duplicate_groups.len(), 2);
}

#[test]
fn excluded_glob_removes_matching_files() {
    let mut t = Tree::new();
    t.write(ROOT, "keep_a.txt", b"excluded test content");
    t.write(ROOT, "keep_b.txt", b"excluded test content");
    t.write(ROOT, "skip/ignored_a.log", b"excluded test content");
    t.write(ROOT, "skip/ignored_b.log", b"excluded test content");

    let report = scan_tree(&t, 0, false, &["**/*.log"], None).expect("scan should succeed");

    assert_eq!(report.duplicate_groups.len(), 1);
    assert_eq!(report.duplicate_groups[0].paths.len(), 2);
    for p in &report.duplicate_groups[0].paths {
        assert!(!p.ends_with(".log"));
    }
}

#[test]
fn exclude_by_extension_glob() {
    let mut t = Tree::new();
    t.write(ROOT, "a.tmp", b"tmp duplicate payload");
    t.write(ROOT, "b.tmp", b"tmp duplicate payload");

    let report = scan_tree(&t, 0, false, &["*.tmp"], None).expect("scan should succeed");

    assert!(report.duplicate_groups.is_empty());
    assert_eq!(report.stats.files_scanned, 0);
}

#[test]
fn min_size_filter_drops_small_files() {
    let mut t = Tree::new();
    t.write(ROOT, "small_a.txt", b"tiny");
    t.write(ROOT, "small_b.txt", b"tiny");
    t.write(ROOT, "big_a.txt", b"this file is definitely bigger than tiny");
    t.write(ROOT, "big_b.txt", b"this file is definitely bigger than tiny");

    let report = scan_tree(&t, 10, false, &[], None).expect("scan should succeed");

    assert_eq!(report.duplicate_groups.len(), 1);
    assert!(report.duplicate_groups[0].size >= 10);
    assert_eq!(report.stats.files_scanned, 2);
}

#[test]
fn min_size_zero_keeps_everything() {
    let mut t = Tree::new();
    t.write(ROOT, "a.txt", b"x");
    t.write(ROOT, "b.txt", b"x");

    let report = scan_tree(&t, 0, false, &[], None).expect("scan should succeed");
    assert_eq!(report.duplicate_groups.len(), 1);
}

#[test]
fn hard_links_are_reported_as_identity_not_duplicates() {
    let mut t = Tree::new();
    let original = t.write(ROOT, "original.txt", b"hard linked content");
    t.link(&original, format!("{ROOT}/link.txt"), false);

    let report = scan_default(&t);
    assert!(report.duplicate_groups.is_empty(), "hard links must not be reported as content duplicates");
    assert_eq!(report.identity_groups.len(), 1);
    assert_eq!(report.identity_groups[0].paths.len(), 2);
    assert_eq!(report.stats.identity_files_skipped, 1);
}

#[test]
fn hard_link_plus_a_true_duplicate_elsewhere() {
    let mut t = Tree::new();
    let original = t.write(ROOT, "original.txt", b"shared bytes for linking");
    t.link(&original, format!("{ROOT}/link.txt"), false);
    t.write(ROOT, "separate_copy.txt", b"shared bytes for linking");

    let report = scan_default(&t);
    assert_eq!(report.identity_groups.len(), 1);
    assert_eq!(report.duplicate_groups.len(), 1);
    assert_eq!(report.duplicate_groups[0].paths.len(), 2);
}

#[test]
fn unique_size_file_never_gets_fully_hashed() {
    let mut t = Tree::new();
    t.write(ROOT, "unique_size.txt", b"a very specific and unique length!");
    t.write(ROOT, "dup_a.txt", b"same as dup_b");
    t.write(ROOT, "dup_b.txt", b"same as dup_b");

    let report = scan_default(&t);
    assert_eq!(report.stats.unique_size_files, 1);
    // Only the two same-size duplicate candidates should ever reach stage 3.
    assert_eq!(report.stats.fully_hashed, 2);
}

#[test]
fn cascade_short_circuits_when_all_sizes_unique() {
    let mut t = Tree::new();
    t.write(ROOT, "a.txt", b"one");
    t.write(ROOT, "b.txt", b"twotwo");
    t.write(ROOT, "c.txt", b"threethreethree");

    let report = scan_default(&t);
    assert_eq!(report.stats.unique_size_files, 3);
    assert_eq!(report.stats.sample_hashed, 0);
    assert_eq!(report.stats.fully_hashed, 0);
    assert!(report.duplicate_groups.is_empty());
}

#[test]
fn sample_stage_eliminates_same_size_different_content() {
    let mut t = Tree::new();
    // Same size, different content -> should be eliminated by the sample
    // stage (or at worst the full-hash stage), never reported as dupes.
    t.write(ROOT, "a.bin", &[1u8; 5000]);
    t.write(ROOT, "b.bin", &[2u8; 5000]);

    let report = scan_default(&t);
    assert!(report.duplicate_groups.is_empty());
    assert_eq!(report.stats.sample_hashed, 2);
}

#[test]
fn large_head_tail_match_but_middle_differs_is_not_a_duplicate() {
    let mut t = Tree::new();
    let size = 20_000usize;
    let mut a = vec![7u8; size];
    let mut b = vec![7u8; size];
    // Same head and tail (within default 4096-byte sample window), but the
    // middle differs -- this is exactly the case stage 2 alone would miss,
    // and stage 3's full hash must catch it.
    a[size / 2] = 1;
    b[size / 2] = 2;

    t.write(ROOT, "a.bin", &a);
    t.write(ROOT, "b.bin", &b);

    let report = scan_default(&t);
    assert!(
        report.duplicate_groups.is_empty(),
        "files differing only in the middle must not be reported as duplicates"
    );
    assert_eq!(report.stats.fully_hashed, 2, "both must reach the full-hash stage");
}

#[test]
fn reclaimable_bytes_matches_group_math() {
    let mut t = Tree::new();
    t.write(ROOT, "a.txt", b"twelve bytes");
    t.write(ROOT, "b.txt", b"twelve bytes");
    t.write(ROOT, "c.txt", b"twelve bytes");

    let report = scan_default(&t);
    let group = &report.duplicate_groups[0];
    assert_eq!(group.reclaimable_bytes(), group.size * 2);
    assert_eq!(report.stats.reclaimable_bytes, group.size * 2);
}

#[test]
fn multiple_roots_are_all_scanned() {
    let mut t = Tree::new();
    t.write("/tmp/root-a", "x.txt", b"cross-root duplicate value");
    t.write("/tmp/root-b", "y.txt", b"cross-root duplicate value");

    let report = scan_tree(&t, 0, false, &[], None).expect("scan should succeed");

    assert_eq!(report.duplicate_groups.len(), 1);
    assert_eq!(report.duplicate_groups[0].paths.len(), 2);
}

#[test]
fn custom_sample_size_still_finds_duplicates() {
    let mut t = Tree::new();
    t.write(ROOT, "a.txt", b"custom sample size content payload");
    t.write(ROOT, "b.txt", b"custom sample size content payload");

    let report = scan_tree(&t, 0, false, &[], Some(8)).expect("scan should succeed");
    assert_eq!(report.duplicate_groups.len(), 1);
}

#[test]
fn symlinks_are_not_followed_by_default() {
    let mut t = Tree::new();
    let target = t.write(ROOT, "target.txt", b"symlink target content");
    t.link(&target, format!("{ROOT}/link.txt"), true);

    let report = scan_default(&t);
    // The symlink itself should not be walked into as a duplicate of its
    // target when follow_symlinks is false.
    assert!(report.duplicate_groups.is_empty());
    assert_eq!(report.stats.files_scanned, 1);
}

#[test]
fn followed_symlink_is_an_identity_of_its_target() {
    let mut t = Tree::new();
    let target = t.write(ROOT, "target.txt", b"symlink target content");
    t.link(&target, format!("{ROOT}/link.txt"), true);

    let report = scan_tree(&t, 0, true, &[], None).expect("scan should succeed");
    assert!(report.duplicate_groups.is_empty());
    assert_eq!(report.identity_groups.len(), 1);
    assert_eq!(report.stats.files_scanned, 2);
    assert_eq!(report.stats.identity_files_skipped, 1);
}

#[test]
fn stage_counters_add_up() {
    let mut t = Tree::new();
    t.write(ROOT, "u.txt", b"unique length file, nothing else like it");
    t.write(ROOT, "p.txt", b"pair-0");
    t.write(ROOT, "q.txt", b"pair-1");
    t.write(ROOT, "d1.txt", b"dup!!!");
    t.write(ROOT, "d2.txt", b"dup!!!");

    let report = scan_default(&t);
    let s = &report.stats;
    assert_eq!(s.files_scanned, 5);
    assert_eq!(s.unique_size_files, 1);
    assert_eq!(s.size_candidate_files, 4);
    assert_eq!(s.sample_hashed, 4);
    assert_eq!(s.unique_sample_files, 2);
    assert_eq!(s.fully_hashed, 2);
    assert_eq!(s.duplicate_groups, 1);
    assert_eq!(s.duplicate_files, 2);
    assert_eq!(s.reclaimable_bytes, 6);
    assert_eq!(report.duplicate_groups[0].paths, vec![format!("{ROOT}/d1.txt"), format!("{ROOT}/d2.txt")]);
}

#[test]
fn groups_come_most_reclaimable_first() {
    let mut t = Tree::new();
    t.write(ROOT, "s1", b"ab");
    t.write(ROOT, "s2", b"ab");
    t.write(ROOT, "s3", b"ab");
    t.write(ROOT, "l1", b"0123456789");
    t.write(ROOT, "l2", b"0123456789");
    t.write(ROOT, "m1", b"xyzw");
    t.write(ROOT, "m2", b"xyzw");

    let report = scan_default(&t);
    let reclaim: Vec<u64> = report.duplicate_groups.iter().map(|g| g.reclaimable_bytes()).collect();
    assert_eq!(reclaim, vec![10, 4, 4]);
    assert_eq!(report.stats.reclaimable_bytes, 18);
    // The paths of each group come in path order.
    assert_eq!(report.duplicate_groups[0].paths, vec![format!("{ROOT}/l1"), format!("{ROOT}/l2")]);
}

#[test]
fn unreadable_files_drop_out_of_the_cascade() {
    let files: Vec<FileEntry> = ["/x/a", "/x/b", "/x/c"]
        .iter()
        .map(|p| FileEntry { path: p.to_string(), size: 5, modified: None })
        .collect();
    let mut run = run_cascade(files, None);
    assert_eq!(run.sample_size(), DEFAULT_SAMPLE_SIZE);
    assert_eq!(run.stage(), CascadeStage::Sampling);
    assert_eq!(run.pending_files().len(), 3);
    // The second file could not be read.
    run.supply_sample_hashes(vec![Some("s".to_string()), None, Some("s".to_string())]);
    assert_eq!(run.stage(), CascadeStage::FullHashing);
    let pending: Vec<String> = run.pending_files().into_iter().map(|f| f.path).collect();
    assert_eq!(pending, vec!["/x/a".to_string(), "/x/c".to_string()]);
    assert_eq!(run.stats().unique_sample_files, 0);
    // Then the last one could not be read either: no group is left.
    run.supply_full_hashes(vec![Some("f".to_string()), None]);
    assert_eq!(run.stage(), CascadeStage::Finished);
    let (groups, stats) = run.finish();
    assert!(groups.is_empty());
    assert_eq!(stats.fully_hashed, 2);
    assert_eq!(stats.duplicate_groups, 0);
}

#[test]
fn identity_split_keeps_one_representative_per_file() {
    let files: Vec<FileEntry> = ["/y/a", "/y/b", "/y/c", "/y/d"]
        .iter()
        .map(|p| FileEntry { path: p.to_string(), size: 3, modified: None })
        .collect();
    // a and c are one file; b could not be identified; d is on its own.
    let (groups, reps) = split_by_identity(files, vec![Some(1), None, Some(1), Some(2)]);
    assert_eq!(groups.len(), 1);
    assert_eq!(groups[0].paths, vec!["/y/a".to_string(), "/y/c".to_string()]);
    assert_eq!(groups[0].size, 3);
    let rep_paths: Vec<String> = reps.into_iter().map(|f| f.path).collect();
    assert_eq!(rep_paths, vec!["/y/a".to_string(), "/y/d".to_string(), "/y/b".to_string()]);
}

#[test]
fn sha256_digests_in_lowercase_hex() {
    assert_eq!(digest_of(&[b"abc".as_slice()]), "ba7816bf8f01cfea414140de5dae2223b00361a396177a9cb410ff61f20015ad");
    assert_eq!(digest_of(&[]), "e3b0c44298fc1c149afbf4c8996fb92427ae41e4649b934ca495991b7852b855");
    // Feeding in pieces gives the digest of the whole.
    assert_eq!(digest_of(&[b"a".as_slice(), b"".as_slice(), b"bc".as_slice()]), digest_of(&[b"abc".as_slice()]));
    assert_eq!(hex_of(&[0x00, 0x0f, 0xa0, 0xff]), "000fa0ff");
}

#[test]
fn sample_covers_the_whole_small_file() {
    assert_eq!(sample_plan(8192, 4096), SamplePlan::Whole);
    assert_eq!(sample_plan(8193, 4096), SamplePlan::HeadTail { len: 4096, tail_start: 4097 });
    assert_eq!(sample_plan(0, 0), SamplePlan::Whole);
    assert_eq!(sample_plan(1, 0), SamplePlan::HeadTail { len: 0, tail_start: 1 });
    // Twice the sample size saturates instead of overflowing.
    assert_eq!(sample_plan(u64::MAX, u64::MAX / 2 + 1), SamplePlan::Whole);
}

#[test]
fn reclaimable_bytes_saturates() {
    let g = DupeGroup { size: u64::MAX, hash: "h".to_string(), paths: vec!["a".into(), "b".into(), "c".into()] };
    assert_eq!(g.reclaimable_bytes(), u64::MAX);
    let none = DupeGroup { size: 10, hash: "h".to_string(), paths: vec![] };
    assert_eq!(none.reclaimable_bytes(), 0);
    let two = DupeGroup { size: 10, hash: "h".to_string(), paths: vec!["a".into(), "b".into()] };
    assert_eq!(two.reclaimable_bytes(), 10);
}

#[test]
fn invalid_exclude_glob_is_an_error() {
    assert!(ScanOptions::new(0, false, &vec!["a[".to_string()]).is_err());
    let opts = ScanOptions::new(3, true, &vec!["**/*.log".to_string()]).expect("valid globs");
    assert!(opts.is_excluded("/r/x/y.log"));
    assert!(!opts.is_excluded("/r/x/y.txt"));
    assert!(opts.admits_entry("/r/x/y.txt", true, true));
    assert!(!opts.admits_entry("/r/x/dir", false, false));
    assert!(!opts.admits_size(2));
    assert!(opts.admits_size(3));
}

#[test]
fn sample_digest_hashes_head_then_tail() {
    let plan = sample_plan(10, 2);
    assert_eq!(plan, SamplePlan::HeadTail { len: 2, tail_start: 8 });
    assert_eq!(sample_digest(plan, b"ab", b"yz"), digest_of(&[b"abyz".as_slice()]));
    assert_eq!(sample_digest(SamplePlan::Whole, b"abc", &[]), "ba7816bf8f01cfea414140de5dae2223b00361a396177a9cb410ff61f20015ad");
}
