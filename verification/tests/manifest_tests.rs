use fdupe::cascade::CascadeStage;
use fdupe::delete::delete_duplicates;
use fdupe::hashing::{sample_digest, sample_plan, ContentHasher, SamplePlan};
use fdupe::manifest::{
    build_manifest, entry_refused, ExecutionReport, Manifest, ManifestAction, ManifestEntry, ManifestEvent,
    ManifestRun, Phase, MANIFEST_VERSION,
};
use fdupe::model::{DupeGroup, FileEntry, KeepStrategy, ScanReport};
use fdupe::scan;

/// An in-memory file system: paths and their contents.
struct Disk {
    files: Vec<(String, Vec<u8>)>,
}

impl Disk {
    fn new() -> Disk {
        Disk { files: Vec::new() }
    }

    fn write(&mut self, root: &str, rel: &str, content: &[u8]) -> String {
        let path = format!("{root}/{rel}");
        self.put(&path, content);
        path
    }

    fn put(&mut self, path: &str, content: &[u8]) {
        match self.files.iter_mut().find(|(p, _)| p == path) {
            Some(entry) => entry.1 = content.to_vec(),
            None => self.files.push((path.to_string(), content.to_vec())),
        }
    }

    fn read(&self, path: &str) -> Option<&[u8]> {
        self.files.iter().find(|(p, _)| p == path).map(|(_, c)| c.as_slice())
    }

    fn has(&self, path: &str) -> bool {
        self.read(path).is_some()
    }

    fn remove(&mut self, path: &str) -> bool {
        let before = self.files.len();
        self.files.retain(|(p, _)| p != path);
        self.files.len() < before
    }

    fn count_under(&self, root: &str) -> usize {
        let prefix = format!("{root}/");
        self.files.iter().filter(|(p, _)| p.starts_with(&prefix)).count()
    }
}

fn hex_digest(parts: &[&[u8]]) -> String {
    let mut h = ContentHasher::new();
    for p in parts {
        h.update(p);
    }
    h.finish_hex()
}

/// Scan the whole disk with the default options.
fn scan_disk(disk: &Disk) -> ScanReport {
    let files: Vec<FileEntry> = disk
        .files
        .iter()
        .map(|(p, c)| FileEntry { path: p.clone(), size: c.len() as u64, modified: None })
        .collect();
    let keys = (0..files.len() as u64).map(Some).collect();
    let mut run = scan(files, keys, None);
    loop {
        match run.stage() {
            CascadeStage::Finished => break,
            CascadeStage::Sampling => {
                let ss = run.sample_size();
                let hashes = run
                    .pending_files()
                    .iter()
                    .map(|f| {
                        let c = disk.read(&f.path).expect("scanned file");
                        let plan = sample_plan(f.size, ss);
                        Some(match plan {
                            SamplePlan::Whole => sample_digest(plan, c, &[]),
                            SamplePlan::HeadTail { len, tail_start } => {
                                let (len, tail) = (len as usize, tail_start as usize);
                                sample_digest(plan, &c[..len], &c[tail..tail + len])
                            }
                        })
                    })
                    .collect();
                run.supply_sample_hashes(hashes);
            }
            CascadeStage::FullHashing => {
                let hashes = run
                    .pending_files()
                    .iter()
                    .map(|f| Some(hex_digest(&[disk.read(&f.path).expect("scanned file")])))
                    .collect();
                run.supply_full_hashes(hashes);
            }
        }
    }
    run.into_report()
}

/// Carry out a run against the disk: check, hash and remove as asked.
fn drive(disk: &mut Disk, mut run: ManifestRun) -> ExecutionReport {
    let mut event = None;
    loop {
        match run.next(event) {
            ManifestAction::CheckExists(p) => event = Some(ManifestEvent::Exists(disk.has(&p))),
            ManifestAction::Verify(p) => {
                let outcome = match disk.read(&p) {
                    Some(c) => Ok(hex_digest(&[c])),
                    None => Err("No such file or directory".to_string()),
                };
                event = Some(ManifestEvent::Hashed(outcome));
            }
            ManifestAction::Remove(p) => {
                let outcome = if disk.remove(&p) { Ok(()) } else { Err("No such file or directory".to_string()) };
                event = Some(ManifestEvent::Removed(outcome));
            }
            ManifestAction::Done => break,
        }
    }
    assert_eq!(run.phase(), Phase::Finished);
    run.into_report()
}

fn execute_on(disk: &mut Disk, manifest: Manifest, dry_run: bool, skip_verify: bool) -> ExecutionReport {
    drive(disk, ManifestRun::new(manifest, dry_run, skip_verify))
}

fn no_times(groups: &[DupeGroup]) -> Vec<Vec<i128>> {
    groups.iter().map(|g| vec![0; g.paths.len()]).collect()
}

fn plan(report: &ScanReport, strategy: KeepStrategy) -> Manifest {
    build_manifest(&report.duplicate_groups, strategy, &no_times(&report.duplicate_groups))
}

const DIR: &str = "/tmp/manifest-root";

#[test]
fn build_manifest_keeps_exactly_one_file_per_group() {
    let mut disk = Disk::new();
    disk.write(DIR, "a.txt", b"manifest build content");
    disk.write(DIR, "b.txt", b"manifest build content");
    disk.write(DIR, "c.txt", b"manifest build content");

    let report = scan_disk(&disk);
    let manifest = plan(&report, KeepStrategy::First);

    assert_eq!(manifest.groups.len(), 1);
    let entry = &manifest.groups[0];
    assert_eq!(entry.delete.len(), 2);
    assert!(!entry.delete.contains(&entry.keep));
}

#[test]
fn execute_manifest_dry_run_deletes_nothing() {
    let mut disk = Disk::new();
    let a = disk.write(DIR, "a.txt", b"dry run manifest content");
    let b = disk.write(DIR, "b.txt", b"dry run manifest content");

    let report = scan_disk(&disk);
    let manifest = plan(&report, KeepStrategy::First);

    let exec = execute_on(&mut disk, manifest, true, false);
    assert!(exec.deleted.is_empty());
    assert_eq!(exec.would_delete.len(), 1);
    assert!(disk.has(&a));
    assert!(disk.has(&b));
}

#[test]
fn execute_manifest_actually_deletes_and_keeps_one() {
    let mut disk = Disk::new();
    disk.write(DIR, "a.txt", b"real deletion manifest content");
    disk.write(DIR, "b.txt", b"real deletion manifest content");

    let report = scan_disk(&disk);
    let manifest = plan(&report, KeepStrategy::First);
    let keep_path = manifest.groups[0].keep.clone();

    let exec = execute_on(&mut disk, manifest, false, false);
    assert_eq!(exec.deleted.len(), 1);
    assert!(disk.has(&keep_path), "the kept file must survive");
    assert!(exec.bytes_reclaimed > 0);
}

#[test]
fn execute_manifest_refuses_when_keep_is_also_in_delete_list() {
    let bogus = ManifestEntry {
        size: 10,
        hash: "deadbeef".to_string(),
        keep: "/tmp/does-not-matter-a.txt".into(),
        delete: vec!["/tmp/does-not-matter-a.txt".into(), "/tmp/does-not-matter-b.txt".into()],
    };
    let manifest = Manifest { version: 1, keep_strategy: KeepStrategy::First, groups: vec![bogus] };

    let mut disk = Disk::new();
    disk.put("/tmp/does-not-matter-a.txt", b"0123456789");
    disk.put("/tmp/does-not-matter-b.txt", b"0123456789");
    let exec = execute_on(&mut disk, manifest, false, true);
    assert_eq!(exec.refused_groups.len(), 1);
    assert!(exec.deleted.is_empty());
    assert!(disk.has("/tmp/does-not-matter-a.txt") && disk.has("/tmp/does-not-matter-b.txt"));
    assert_eq!(exec.refused_groups[0], "refusing to delete every copy in group deadbeef (size=10)");
}

#[test]
fn execute_manifest_skips_files_that_no_longer_exist() {
    let manifest = Manifest {
        version: 1,
        keep_strategy: KeepStrategy::First,
        groups: vec![ManifestEntry {
            size: 5,
            hash: "abc123".to_string(),
            keep: "/tmp/fdupe-test-keep-nonexistent.txt".into(),
            delete: vec!["/tmp/fdupe-test-delete-nonexistent.txt".into()],
        }],
    };

    let mut disk = Disk::new();
    let exec = execute_on(&mut disk, manifest, false, true);
    assert!(exec.deleted.is_empty());
    assert_eq!(exec.skipped.len(), 1);
    assert_eq!(
        exec.skipped[0],
        ("/tmp/fdupe-test-delete-nonexistent.txt".to_string(), "path no longer exists".to_string())
    );
}

#[test]
fn execute_manifest_verifies_hash_before_deleting() {
    let mut disk = Disk::new();
    let a = disk.write(DIR, "a.txt", b"verify me before delete");
    let b = disk.write(DIR, "b.txt", b"verify me before delete");

    let report = scan_disk(&disk);
    let manifest = plan(&report, KeepStrategy::First);

    // Mutate one of the files after the manifest was generated but before
    // it is executed: content changed, so it must not be deleted.
    disk.put(&a, b"content has changed since scan");
    disk.put(&b, b"content has changed since scan too");

    let exec = execute_on(&mut disk, manifest, false, false);
    assert!(exec.deleted.is_empty(), "changed files must not be deleted");
    assert!(!exec.skipped.is_empty());
    assert_eq!(exec.skipped[0].1, "content changed since manifest was generated");
    assert!(disk.has(&a));
    assert!(disk.has(&b));
}

#[test]
fn skip_verify_bypasses_hash_check() {
    let mut disk = Disk::new();
    let a = disk.write(DIR, "a.txt", b"skip verify content here");
    disk.write(DIR, "b.txt", b"skip verify content here");

    let report = scan_disk(&disk);
    let manifest = plan(&report, KeepStrategy::First);
    let victim = manifest.groups[0].delete[0].clone();

    if victim == a {
        disk.put(&a, b"mutated but we skip verification");
    }

    let exec = execute_on(&mut disk, manifest, false, true);
    assert_eq!(exec.deleted.len(), 1);
}

#[test]
fn delete_duplicates_keeps_first_and_removes_rest() {
    let mut disk = Disk::new();
    disk.write(DIR, "a_first.txt", b"delete duplicates test content");
    disk.write(DIR, "b_second.txt", b"delete duplicates test content");
    disk.write(DIR, "c_third.txt", b"delete duplicates test content");

    let report = scan_disk(&disk);
    let groups = &report.duplicate_groups;
    let exec = drive(&mut disk, delete_duplicates(groups, KeepStrategy::First, &no_times(groups), false));

    assert_eq!(exec.deleted.len(), 2);
    assert!(disk.has(&format!("{DIR}/a_first.txt")));
    assert!(!disk.has(&format!("{DIR}/b_second.txt")));
    assert!(!disk.has(&format!("{DIR}/c_third.txt")));
}

#[test]
fn delete_duplicates_dry_run_leaves_all_files() {
    let mut disk = Disk::new();
    disk.write(DIR, "a.txt", b"dry run delete duplicates content");
    disk.write(DIR, "b.txt", b"dry run delete duplicates content");

    let report = scan_disk(&disk);
    let groups = &report.duplicate_groups;
    let exec = drive(&mut disk, delete_duplicates(groups, KeepStrategy::First, &no_times(groups), true));

    assert_eq!(exec.would_delete.len(), 1);
    assert!(exec.deleted.is_empty());
    assert!(disk.has(&format!("{DIR}/a.txt")));
    assert!(disk.has(&format!("{DIR}/b.txt")));
}

#[test]
fn delete_duplicates_never_removes_every_copy() {
    let mut disk = Disk::new();
    disk.write(DIR, "a.txt", b"never remove every copy content");
    disk.write(DIR, "b.txt", b"never remove every copy content");

    let report = scan_disk(&disk);
    let groups = &report.duplicate_groups;
    let exec = drive(&mut disk, delete_duplicates(groups, KeepStrategy::First, &no_times(groups), false));

    let remaining = disk.count_under(DIR);
    assert_eq!(remaining, 1, "exactly one copy must survive");
    assert!(exec.refused_groups.is_empty());
}

#[test]
fn delete_duplicates_with_shortest_path_strategy() {
    let mut disk = Disk::new();
    disk.write(DIR, "a_very_long_name.txt", b"shortest path deletion content");
    disk.write(DIR, "s.txt", b"shortest path deletion content");

    let report = scan_disk(&disk);
    let groups = &report.duplicate_groups;
    let exec = drive(&mut disk, delete_duplicates(groups, KeepStrategy::ShortestPath, &no_times(groups), false));

    assert_eq!(exec.deleted.len(), 1);
    assert!(disk.has(&format!("{DIR}/s.txt")));
    assert!(!disk.has(&format!("{DIR}/a_very_long_name.txt")));
}

#[test]
fn reclaimable_bytes_reported_by_delete_matches_scan_stats() {
    let mut disk = Disk::new();
    disk.write(DIR, "a.txt", b"reclaim bytes match content");
    disk.write(DIR, "b.txt", b"reclaim bytes match content");

    let report = scan_disk(&disk);
    let expected = report.stats.reclaimable_bytes;
    let groups = &report.duplicate_groups;
    let exec = drive(&mut disk, delete_duplicates(groups, KeepStrategy::First, &no_times(groups), false));

    assert_eq!(exec.bytes_reclaimed, expected);
}

#[test]
fn manifest_records_strategy_and_version() {
    let mut disk = Disk::new();
    disk.write(DIR, "x.txt", b"old and new");
    disk.write(DIR, "y.txt", b"old and new");
    let report = scan_disk(&disk);
    // x.txt is newer than y.txt.
    let times = vec![vec![20, 10]];
    let m = build_manifest(&report.duplicate_groups, KeepStrategy::Newest, &times);
    assert_eq!(m.version, MANIFEST_VERSION);
    assert_eq!(m.keep_strategy, KeepStrategy::Newest);
    assert_eq!(m.groups[0].keep, format!("{DIR}/x.txt"));
    assert_eq!(m.groups[0].delete, vec![format!("{DIR}/y.txt")]);
    assert_eq!(m.groups[0].hash, report.duplicate_groups[0].hash);
    assert_eq!(m.groups[0].size, 11);
    assert!(!entry_refused(&m.groups[0]));
}

#[test]
fn empty_delete_list_is_refused() {
    let entry = ManifestEntry { size: 3, hash: "cafe".to_string(), keep: "/k".into(), delete: vec![] };
    assert!(entry_refused(&entry));
    let manifest = Manifest { version: 1, keep_strategy: KeepStrategy::First, groups: vec![entry] };
    let mut disk = Disk::new();
    disk.put("/k", b"abc");
    let exec = execute_on(&mut disk, manifest, false, false);
    assert_eq!(exec.refused_groups, vec!["refusing to delete every copy in group cafe (size=3)".to_string()]);
    assert!(disk.has("/k"));
}

#[test]
fn failed_checks_are_reported_with_their_reason() {
    let mut disk = Disk::new();
    disk.put("/d/keep", b"same");
    disk.put("/d/gone", b"same");
    let hash = hex_digest(&[b"same".as_slice()]);
    let entry = ManifestEntry { size: 4, hash, keep: "/d/keep".into(), delete: vec!["/d/gone".into()] };
    let mut run = ManifestRun::new(Manifest { version: 1, keep_strategy: KeepStrategy::First, groups: vec![entry] }, false, false);
    match run.next(None) {
        ManifestAction::CheckExists(p) => assert_eq!(p, "/d/gone"),
        other => panic!("unexpected action {other:?}"),
    }
    match run.next(Some(ManifestEvent::Exists(true))) {
        ManifestAction::Verify(p) => assert_eq!(p, "/d/gone"),
        other => panic!("unexpected action {other:?}"),
    }
    // The file vanished between the check and the hash.
    match run.next(Some(ManifestEvent::Hashed(Err("permission denied".to_string())))) {
        ManifestAction::Done => {}
        other => panic!("unexpected action {other:?}"),
    }
    let exec = run.into_report();
    assert_eq!(exec.skipped, vec![("/d/gone".to_string(), "could not verify: permission denied".to_string())]);

    let entry = ManifestEntry { size: 4, hash: "h".into(), keep: "/d/keep".into(), delete: vec!["/d/gone".into()] };
    let mut run = ManifestRun::new(Manifest { version: 1, keep_strategy: KeepStrategy::First, groups: vec![entry] }, false, true);
    assert!(matches!(run.next(None), ManifestAction::CheckExists(_)));
    assert!(matches!(run.next(Some(ManifestEvent::Exists(true))), ManifestAction::Remove(_)));
    assert!(matches!(run.next(Some(ManifestEvent::Removed(Err("busy".to_string())))), ManifestAction::Done));
    let exec = run.into_report();
    assert_eq!(exec.skipped, vec![("/d/gone".to_string(), "delete failed: busy".to_string())]);
    assert_eq!(exec.bytes_reclaimed, 0);
}

#[test]
fn dry_run_never_asks_to_remove() {
    let entry = ManifestEntry {
        size: u64::MAX,
        hash: "h".into(),
        keep: "/e/k".into(),
        delete: vec!["/e/a".into(), "/e/b".into()],
    };
    let mut run = ManifestRun::new(Manifest { version: 1, keep_strategy: KeepStrategy::First, groups: vec![entry] }, true, true);
    let mut event = None;
    loop {
        match run.next(event) {
            ManifestAction::CheckExists(_) => event = Some(ManifestEvent::Exists(true)),
            ManifestAction::Done => break,
            other => panic!("a dry run asked for {other:?}"),
        }
    }
    let exec = run.into_report();
    assert_eq!(exec.would_delete, vec!["/e/a".to_string(), "/e/b".to_string()]);
    // The byte count saturates rather than overflowing.
    assert_eq!(exec.bytes_reclaimed, u64::MAX);
    // A finished run stays finished.
    assert!(matches!(run_done_twice(), ManifestAction::Done));
}

fn run_done_twice() -> ManifestAction {
    let mut run = ManifestRun::new(Manifest { version: 1, keep_strategy: KeepStrategy::First, groups: vec![] }, false, false);
    assert!(matches!(run.next(None), ManifestAction::Done));
    run.next(None)
}

#[test]
fn keep_path_spelled_otherwise_in_delete_list_is_refused() {
    // "/d//a.txt" and "/d/./a.txt" are the same path as "/d/a.txt".
    for other in ["/d//a.txt", "/d/./a.txt", "/d/a.txt/"] {
        let entry = ManifestEntry {
            size: 4,
            hash: "beef".to_string(),
            keep: "/d/a.txt".into(),
            delete: vec!["/d/b.txt".into(), other.into()],
        };
        assert!(entry_refused(&entry));
        let manifest = Manifest { version: 1, keep_strategy: KeepStrategy::First, groups: vec![entry] };
        let mut disk = Disk::new();
        disk.put("/d/a.txt", b"same");
        disk.put("/d/b.txt", b"same");
        let exec = execute_on(&mut disk, manifest, false, true);
        assert_eq!(exec.refused_groups, vec!["refusing to delete every copy in group beef (size=4)".to_string()]);
        assert!(exec.deleted.is_empty() && exec.skipped.is_empty() && exec.would_delete.is_empty());
        assert_eq!(exec.bytes_reclaimed, 0);
        assert!(disk.has("/d/a.txt") && disk.has("/d/b.txt"));
    }
}

#[test]
fn build_manifest_drops_every_spelling_of_the_kept_path() {
    let g = DupeGroup {
        size: 4,
        hash: "beef".to_string(),
        paths: vec!["/d/a.txt".into(), "/d//a.txt".into(), "/d/b.txt".into()],
    };
    let groups = vec![g];
    let m = build_manifest(&groups, KeepStrategy::First, &no_times(&groups));
    assert_eq!(m.groups[0].keep, "/d/a.txt");
    assert_eq!(m.groups[0].delete, vec!["/d/b.txt".to_string()]);

    let only_spellings = vec![DupeGroup {
        size: 4,
        hash: "beef".to_string(),
        paths: vec!["/d/a.txt".into(), "/d//a.txt".into()],
    }];
    let m = build_manifest(&only_spellings, KeepStrategy::First, &no_times(&only_spellings));
    assert!(m.groups[0].delete.is_empty());
    let mut disk = Disk::new();
    disk.put("/d/a.txt", b"same");
    let exec = execute_on(&mut disk, m, false, false);
    assert_eq!(exec.refused_groups.len(), 1);
    assert!(disk.has("/d/a.txt"));
}

#[test]
fn dry_run_report_predicts_the_real_run() {
    let mut disk = Disk::new();
    disk.write(DIR, "a.txt", b"predicted content");
    disk.write(DIR, "b.txt", b"predicted content");
    disk.write(DIR, "c.txt", b"predicted content");
    disk.write(DIR, "x.txt", b"other pair");
    disk.write(DIR, "y.txt", b"other pair");
    let report = scan_disk(&disk);
    let mut manifest = plan(&report, KeepStrategy::First);
    // A refused entry and a vanished file show up the same in both runs.
    manifest.groups.push(ManifestEntry { size: 1, hash: "h".into(), keep: "/k".into(), delete: vec![] });
    manifest.groups.push(ManifestEntry {
        size: 1,
        hash: "h".into(),
        keep: "/k".into(),
        delete: vec!["/nowhere".into()],
    });
    let copy = Manifest {
        version: manifest.version,
        keep_strategy: manifest.keep_strategy,
        groups: manifest
            .groups
            .iter()
            .map(|e| ManifestEntry { size: e.size, hash: e.hash.clone(), keep: e.keep.clone(), delete: e.delete.clone() })
            .collect(),
    };
    let mut before = Disk::new();
    before.files = disk.files.clone();
    let dry = execute_on(&mut before, manifest, true, false);
    let real = execute_on(&mut disk, copy, false, false);
    assert_eq!(dry.would_delete, real.deleted);
    assert_eq!(dry.would_delete.len(), 3);
    assert!(dry.deleted.is_empty() && real.would_delete.is_empty());
    assert_eq!(dry.skipped, real.skipped);
    assert_eq!(dry.refused_groups, real.refused_groups);
    assert_eq!(dry.bytes_reclaimed, real.bytes_reclaimed);
}
