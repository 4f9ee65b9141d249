//! The three-stage cascade: group by size (free), then a head/tail sample
//! hash, then a full content hash. Each stage only asks for the hashes of
//! files that survived the previous one, so most files never have their
//! bytes read at all, and almost none are fully hashed.
//!
//! The cascade is a state machine: reading and hashing files is the
//! caller's work. [`run_cascade`] performs the size stage and names the
//! files to sample-hash; [`CascadeRun::supply_sample_hashes`] takes their
//! sample hashes and names the files to hash in full;
//! [`CascadeRun::supply_full_hashes`] takes those and forms the groups.
use vstd::prelude::*;
use crate::grouping::{Key, key_views, classes_of, flatten_big, big_classes, group_by_key, has_twin,
    distinct_keys, lemma_classes_partition, lemma_flatten_big, lemma_big_classes, lemma_class_keys, lemma_flatten_big_take};
use crate::lex::{ints, lex_le, codes};
use crate::keep::lemma_lex_cons;
use crate::model::{FileEntry, DupeGroup, CascadeStats, IdentityGroup, ScanReport, reclaimable, strs};
use crate::paths::{paths_sorted, sort_paths};
use crate::sort::{sort_keyed, key_of, kle, values_of, lemma_multiset_map};
use crate::text::chars_of;

verus! {

/// Bytes sampled from each end of a file when no sample size is given.
pub const DEFAULT_SAMPLE_SIZE: u64 = 4096;

/// The views of optional texts.
pub open spec fn opt_views(v: Seq<Option<String>>) -> Seq<Option<Seq<char>>> {
    v.map_values(|o: Option<String>| match o {
        Some(s) => Some(s@),
        None => None,
    })
}

/// The positions, among the first `upto`, that hold a hash, in increasing order.
pub open spec fn present(h: Seq<Option<Seq<char>>>, upto: int) -> Seq<int>
    decreases upto,
{
    if upto <= 0 {
        Seq::empty()
    } else {
        present(h, upto - 1) + (if h[upto - 1] is Some { seq![upto - 1] } else { Seq::empty() })
    }
}

pub open spec fn present_all(h: Seq<Option<Seq<char>>>) -> Seq<int> {
    present(h, h.len() as int)
}

/// Stage 1 keys: the size alone.
pub open spec fn size_keys(files: Seq<FileEntry>) -> Seq<Key> {
    Seq::new(files.len(), |i: int| (files[i].size, Seq::<char>::empty()))
}

/// Files that share their size with another file, class by class.
pub open spec fn size_survivors(files: Seq<FileEntry>) -> Seq<int> {
    flatten_big(classes_of(size_keys(files)))
}

/// The file behind the `t`-th hashed candidate.
pub open spec fn hashed_file(cands: Seq<int>, h: Seq<Option<Seq<char>>>, t: int) -> int {
    cands[present_all(h)[t]]
}

/// Stage 2 and 3 keys: size and hash of each candidate that was hashed.
pub open spec fn hashed_keys(files: Seq<FileEntry>, cands: Seq<int>, h: Seq<Option<Seq<char>>>) -> Seq<Key> {
    let p = present_all(h);
    Seq::new(p.len(), |t: int| (files[cands[p[t]]].size, h[p[t]]->Some_0))
}

/// Candidates (as files) that were hashed and share size and hash with another.
pub open spec fn hash_survivors(files: Seq<FileEntry>, cands: Seq<int>, h: Seq<Option<Seq<char>>>) -> Seq<int> {
    flatten_big(classes_of(hashed_keys(files, cands, h))).map_values(|t: int| hashed_file(cands, h, t))
}

/// The classes of hashed candidates that become duplicate groups.
pub open spec fn dupe_classes(files: Seq<FileEntry>, cands: Seq<int>, h: Seq<Option<Seq<char>>>) -> Seq<Seq<int>> {
    big_classes(classes_of(hashed_keys(files, cands, h)))
}

/// The paths of the files of a class.
pub open spec fn class_paths(files: Seq<FileEntry>, cands: Seq<int>, h: Seq<Option<Seq<char>>>, cls: Seq<int>) -> Seq<Seq<char>> {
    cls.map_values(|t: int| files[hashed_file(cands, h, t)].path@)
}

/// A group is the group of a class: same size and hash, the same paths in path order.
pub open spec fn group_of_class(g: DupeGroup, files: Seq<FileEntry>, cands: Seq<int>, h: Seq<Option<Seq<char>>>, cls: Seq<int>) -> bool {
    let k = hashed_keys(files, cands, h)[cls[0]];
    &&& g.size == k.0
    &&& g.hash@ == k.1
    &&& strs(g.paths@).to_multiset() == class_paths(files, cands, h, cls).to_multiset()
    &&& paths_sorted(strs(g.paths@))
}

/// The order of the report: most reclaimable bytes first, then by hash.
pub open spec fn group_key(g: DupeGroup) -> Seq<int> {
    seq![u64::MAX - reclaimable(g.size, g.paths@.len())] + g.hash@.map_values(|c: char| (c as u32) as int)
}

pub open spec fn groups_sorted(gs: Seq<DupeGroup>) -> bool {
    forall|a: int, b: int| 0 <= a < b < gs.len() ==> lex_le(#[trigger] group_key(gs[a]), #[trigger] group_key(gs[b]))
}

/// The groups are those of the duplicate classes, one each, in report order.
pub open spec fn groups_match(gs: Seq<DupeGroup>, files: Seq<FileEntry>, cands: Seq<int>, h: Seq<Option<Seq<char>>>) -> bool {
    let dc = dupe_classes(files, cands, h);
    &&& gs.len() == dc.len()
    &&& forall|t: int| 0 <= t < gs.len() ==> exists|c: int| 0 <= c < dc.len()
            && group_of_class(#[trigger] gs[t], files, cands, h, dc[c])
    &&& forall|c: int| 0 <= c < dc.len() ==> exists|t: int| 0 <= t < gs.len()
            && group_of_class(gs[t], files, cands, h, #[trigger] dc[c])
    &&& forall|a: int, b: int| 0 <= a < gs.len() && 0 <= b < gs.len() && a != b
            ==> (#[trigger] gs[a].size, gs[a].hash@) != (#[trigger] gs[b].size, gs[b].hash@)
    &&& groups_sorted(gs)
}

/// The sum of the bytes reclaimable from each class.
pub open spec fn reclaim_sum(keys: Seq<Key>, cls: Seq<Seq<int>>) -> int
    decreases cls.len(),
{
    if cls.len() == 0 {
        0
    } else {
        reclaim_sum(keys, cls.drop_last()) + reclaimable(keys[cls.last()[0]].0, cls.last().len()) as int
    }
}

pub proof fn lemma_reclaim_sum_nonneg(keys: Seq<Key>, cls: Seq<Seq<int>>)
    ensures
        reclaim_sum(keys, cls) >= 0,
    decreases cls.len(),
{
    if cls.len() > 0 {
        lemma_reclaim_sum_nonneg(keys, cls.drop_last());
    }
}

pub open spec fn saturate(x: int) -> u64 {
    if x > u64::MAX { u64::MAX } else { x as u64 }
}

/// Where the cascade stands.
#[derive(Debug, Clone, Copy, PartialEq, Eq, Structural)]
pub enum CascadeStage {
    /// The pending files await their sample hashes.
    Sampling,
    /// The pending files await their full hashes.
    FullHashing,
    /// The groups are formed.
    Finished,
}

/// A cascade in progress over a fixed list of files.
pub struct CascadeRun {
    files: Vec<FileEntry>,
    sample_size: u64,
    stats: CascadeStats,
    stage: CascadeStage,
    pending: Vec<usize>,
    groups: Vec<DupeGroup>,
    identity_groups: Vec<IdentityGroup>,
}

impl CascadeRun {
    /// The files the cascade runs over.
    pub closed spec fn input(&self) -> Seq<FileEntry> {
        self.files@
    }

    pub closed spec fn spec_sample_size(&self) -> u64 {
        self.sample_size
    }

    pub closed spec fn spec_stats(&self) -> CascadeStats {
        self.stats
    }

    pub closed spec fn spec_stage(&self) -> CascadeStage {
        self.stage
    }

    /// The files (as positions in the input) whose hashes the current stage awaits.
    pub closed spec fn spec_pending(&self) -> Seq<int> {
        self.pending@.map_values(|i: usize| i as int)
    }

    pub closed spec fn spec_groups(&self) -> Seq<DupeGroup> {
        self.groups@
    }

    pub closed spec fn spec_identity_groups(&self) -> Seq<IdentityGroup> {
        self.identity_groups@
    }

    /// Pending positions are valid and distinct.
    pub closed spec fn wf(&self) -> bool {
        &&& forall|k: int| 0 <= k < self.pending@.len() ==> (#[trigger] self.pending@[k]) < self.files@.len()
        &&& self.spec_pending().no_duplicates()
    }

    pub fn stage(&self) -> (r: CascadeStage)
        ensures
            r == self.spec_stage(),
    {
        self.stage
    }

    pub fn sample_size(&self) -> (r: u64)
        ensures
            r == self.spec_sample_size(),
    {
        self.sample_size
    }

    pub fn stats(&self) -> (r: &CascadeStats)
        ensures
            *r == self.spec_stats(),
    {
        &self.stats
    }

    /// Copies of the files whose hashes the current stage awaits, in order.
    pub fn pending_files(&self) -> (r: Vec<FileEntry>)
        requires
            self.wf(),
        ensures
            r@.len() == self.spec_pending().len(),
            forall|k: int| 0 <= k < r@.len() ==> {
                let f = #[trigger] r@[k];
                let g = self.input()[self.spec_pending()[k]];
                f.path@ == g.path@ && f.size == g.size && f.modified == g.modified
            },
    {
        let mut r: Vec<FileEntry> = Vec::new();
        let mut k: usize = 0;
        while k < self.pending.len()
            invariant
                self.wf(),
                k <= self.pending@.len(),
                r@.len() == k,
                forall|q: int| 0 <= q < k ==> {
                    let f = #[trigger] r@[q];
                    let g = self.input()[self.spec_pending()[q]];
                    f.path@ == g.path@ && f.size == g.size && f.modified == g.modified
                },
            decreases self.pending@.len() - k,
        {
            let i = self.pending[k];
            let e = self.files[i].duplicate();
            r.push(e);
            k = k + 1;
        }
        r
    }
}

/// Runs the size stage over the files and starts the cascade.
pub fn run_cascade(files: Vec<FileEntry>, sample_size: Option<u64>) -> (run: CascadeRun)
    ensures
        run.wf(),
        run.input() == files@,
        run.spec_sample_size() == (match sample_size {
            Some(s) => s,
            None => DEFAULT_SAMPLE_SIZE,
        }),
        run.spec_pending() == size_survivors(files@),
        run.spec_stats() == (CascadeStats {
            files_scanned: files@.len() as usize,
            unique_size_files: (files@.len() - size_survivors(files@).len()) as usize,
            size_candidate_files: size_survivors(files@).len() as usize,
            ..CascadeStats::spec_zero()
        }),
        run.spec_stage() == (if size_survivors(files@).len() == 0 {
            CascadeStage::Finished
        } else {
            CascadeStage::Sampling
        }),
        run.spec_groups().len() == 0,
        run.spec_identity_groups().len() == 0,
{
    let sample_size = match sample_size {
        Some(s) => s,
        None => DEFAULT_SAMPLE_SIZE,
    };
    let mut keys: Vec<(u64, String)> = Vec::new();
    let mut i: usize = 0;
    while i < files.len()
        invariant
            i <= files@.len(),
            key_views(keys@) =~= size_keys(files@).take(i as int),
        decreases files@.len() - i,
    {
        let ghost kb = keys@;
        let empty = String::new();
        keys.push((files[i].size, empty));
        proof {
            assert(key_views(keys@) =~= key_views(kb).push((files@[i as int].size, empty@)));
            assert(size_keys(files@).take(i + 1) =~= size_keys(files@).take(i as int).push((files@[i as int].size, Seq::<char>::empty())));
        }
        i = i + 1;
    }
    assert(key_views(keys@) =~= size_keys(files@));
    let classes = group_by_key(&keys);
    let pending = flatten_big_exec(&classes, Ghost(size_keys(files@)));
    proof {
        lemma_flatten_big(size_keys(files@));
    }
    let mut stats = CascadeStats::zero();
    stats.files_scanned = files.len();
    stats.size_candidate_files = pending.len();
    stats.unique_size_files = files.len() - pending.len();
    let stage = if pending.len() == 0 { CascadeStage::Finished } else { CascadeStage::Sampling };
    let run = CascadeRun {
        files,
        sample_size,
        stats,
        stage,
        pending,
        groups: Vec::new(),
        identity_groups: Vec::new(),
    };
    proof {
        assert forall|k: int| 0 <= k < run.pending@.len() implies (#[trigger] run.pending@[k]) < run.files@.len() by {
            let sv = size_survivors(run.files@);
            assert(run.spec_pending()[k] == run.pending@[k] as int);
            assert(sv.contains(sv[k]));
            lemma_flatten_big(size_keys(run.files@));
            assert(flatten_big(classes_of(size_keys(run.files@))).contains(sv[k]));
            assert(0 <= sv[k] < size_keys(run.files@).len());
        }
    }
    run
}

/// The members of the classes with at least two members, class by class.
fn flatten_big_exec(classes: &Vec<Vec<usize>>, Ghost(keys): Ghost<Seq<Key>>) -> (r: Vec<usize>)
    requires
        classes@.len() == classes_of(keys).len(),
        forall|c: int| 0 <= c < classes@.len()
            ==> (#[trigger] classes@[c])@.map_values(|j: usize| j as int) == classes_of(keys)[c],
    ensures
        r@.map_values(|j: usize| j as int) == flatten_big(classes_of(keys)),
{
    let ghost cls = classes_of(keys);
    let mut r: Vec<usize> = Vec::new();
    let mut c: usize = 0;
    while c < classes.len()
        invariant
            classes@.len() == cls.len(),
            forall|e: int| 0 <= e < classes@.len()
                ==> (#[trigger] classes@[e])@.map_values(|j: usize| j as int) == cls[e],
            c <= classes@.len(),
            r@.map_values(|j: usize| j as int) == flatten_big(cls.take(c as int)),
        decreases classes@.len() - c,
    {
        proof {
            assert(cls.take(c + 1).drop_last() =~= cls.take(c as int));
        }
        if classes[c].len() >= 2 {
            let mut m: usize = 0;
            let ghost r0 = r@.map_values(|j: usize| j as int);
            while m < classes[c].len()
                invariant
                    c < classes@.len(),
                    m <= classes@[c as int]@.len(),
                    r@.map_values(|j: usize| j as int) =~= r0 + cls[c as int].take(m as int),
                    classes@[c as int]@.map_values(|j: usize| j as int) == cls[c as int],
                decreases classes@[c as int]@.len() - m,
            {
                let x = classes[c][m];
                let ghost rb = r@;
                r.push(x);
                proof {
                    assert(r@.map_values(|j: usize| j as int) =~= rb.map_values(|j: usize| j as int).push(x as int));
                    assert(cls[c as int][m as int] == x as int);
                    assert(cls[c as int].take(m + 1) =~= cls[c as int].take(m as int).push(cls[c as int][m as int]));
                }
                m = m + 1;
            }
            proof {
                assert(cls[c as int].take(m as int) =~= cls[c as int]);
            }
        }
        c = c + 1;
    }
    proof {
        assert(cls.take(c as int) =~= cls);
    }
    r
}


pub proof fn lemma_present(h: Seq<Option<Seq<char>>>, upto: int)
    requires
        0 <= upto <= h.len(),
    ensures
        forall|a: int, b: int| 0 <= a < b < present(h, upto).len()
            ==> #[trigger] present(h, upto)[a] < #[trigger] present(h, upto)[b],
        forall|t: int| 0 <= t < present(h, upto).len()
            ==> 0 <= #[trigger] present(h, upto)[t] < upto && h[present(h, upto)[t]] is Some,
        forall|k: int| #[trigger] present(h, upto).contains(k) <==> (0 <= k < upto && h[k] is Some),
        present(h, upto).no_duplicates(),
    decreases upto,
{
    if upto > 0 {
        lemma_present(h, upto - 1);
        let p = present(h, upto - 1);
        let q = present(h, upto);
        assert forall|k: int| #[trigger] q.contains(k) <==> (0 <= k < upto && h[k] is Some) by {
            if q.contains(k) {
                let t = choose|t: int| 0 <= t < q.len() && q[t] == k;
                if t < p.len() {
                    assert(p.contains(k));
                }
            }
            if 0 <= k < upto && h[k] is Some {
                if k < upto - 1 {
                    assert(p.contains(k));
                    let t = choose|t: int| 0 <= t < p.len() && p[t] == k;
                    assert(q[t] == k);
                } else {
                    assert(q[p.len() as int] == k);
                }
            }
        }
    }
}

/// Stage 1: a file goes on to be sample-hashed exactly when another file
/// has the same size. A file of unique size is never read at all.
pub proof fn lemma_size_stage(files: Seq<FileEntry>)
    ensures
        size_survivors(files).no_duplicates(),
        forall|i: int| #[trigger] size_survivors(files).contains(i) <==> (0 <= i < files.len()
            && exists|j: int| 0 <= j < files.len() && j != i && #[trigger] files[j].size == files[i].size),
{
    let keys = size_keys(files);
    lemma_flatten_big(keys);
    assert forall|i: int| #[trigger] size_survivors(files).contains(i) <==> (0 <= i < files.len()
        && exists|j: int| 0 <= j < files.len() && j != i && #[trigger] files[j].size == files[i].size) by {
        if 0 <= i < files.len() {
            if has_twin(keys, i) {
                let j = choose|j: int| 0 <= j < keys.len() && j != i && keys[j] == keys[i];
                assert(files[j].size == files[i].size);
            }
            if exists|j: int| 0 <= j < files.len() && j != i && #[trigger] files[j].size == files[i].size {
                let j = choose|j: int| 0 <= j < files.len() && j != i && #[trigger] files[j].size == files[i].size;
                assert(keys[j] == keys[i]);
            }
        }
    }
}

/// Stages 2 and 3: of the files hashed, one goes on exactly when its hash
/// was obtained and another hashed file has the same size and the same hash.
pub proof fn lemma_hash_stage(files: Seq<FileEntry>, cands: Seq<int>, h: Seq<Option<Seq<char>>>)
    requires
        cands.len() == h.len(),
        cands.no_duplicates(),
    ensures
        hash_survivors(files, cands, h).no_duplicates(),
        forall|i: int| #[trigger] hash_survivors(files, cands, h).contains(i) ==> cands.contains(i),
        forall|k: int| 0 <= k < cands.len() ==> (#[trigger] hash_survivors(files, cands, h).contains(cands[k])
            <==> (h[k] is Some && exists|u: int| 0 <= u < cands.len() && u != k && #[trigger] h[u] == h[k]
                && files[cands[u]].size == files[cands[k]].size)),
{
    let p = present_all(h);
    let hk = hashed_keys(files, cands, h);
    let fb = flatten_big(classes_of(hk));
    let hs = hash_survivors(files, cands, h);
    lemma_present(h, h.len() as int);
    lemma_flatten_big(hk);
    assert(hk.len() == p.len());
    assert(hs.len() == fb.len());
    assert forall|a: int| 0 <= a < hs.len() implies #[trigger] hs[a] == cands[p[fb[a]]] && fb.contains(fb[a]) by {
        assert(fb.contains(fb[a]));
    }
    assert forall|a: int, b: int| 0 <= a < hs.len() && 0 <= b < hs.len() && a != b implies hs[a] != hs[b] by {
        assert(fb.contains(fb[a]) && fb.contains(fb[b]));
        assert(fb[a] != fb[b]);
        assert(p[fb[a]] != p[fb[b]]);
    }
    assert forall|i: int| #[trigger] hs.contains(i) implies cands.contains(i) by {
        let a = choose|a: int| 0 <= a < hs.len() && hs[a] == i;
        assert(fb.contains(fb[a]));
        assert(cands[p[fb[a]]] == i);
    }
    assert forall|k: int| 0 <= k < cands.len() implies (#[trigger] hs.contains(cands[k])
        <==> (h[k] is Some && exists|u: int| 0 <= u < cands.len() && u != k && #[trigger] h[u] == h[k]
            && files[cands[u]].size == files[cands[k]].size)) by {
        if hs.contains(cands[k]) {
            let a = choose|a: int| 0 <= a < hs.len() && hs[a] == cands[k];
            let t = fb[a];
            assert(fb.contains(t));
            assert(cands[p[t]] == cands[k]);
            assert(p[t] == k);
            assert(has_twin(hk, t));
            let t2 = choose|t2: int| 0 <= t2 < hk.len() && t2 != t && hk[t2] == hk[t];
            let u = p[t2];
            assert(u != k);
            assert(h[u] == h[k]);
        }
        if h[k] is Some && exists|u: int| 0 <= u < cands.len() && u != k && #[trigger] h[u] == h[k]
            && files[cands[u]].size == files[cands[k]].size {
            let u = choose|u: int| 0 <= u < cands.len() && u != k && #[trigger] h[u] == h[k]
                && files[cands[u]].size == files[cands[k]].size;
            assert(p.contains(k) && p.contains(u));
            let t = choose|t: int| 0 <= t < p.len() && p[t] == k;
            let t2 = choose|t2: int| 0 <= t2 < p.len() && p[t2] == u;
            assert(hk[t2] == hk[t]);
            assert(has_twin(hk, t));
            assert(fb.contains(t));
            let a = choose|a: int| 0 <= a < fb.len() && fb[a] == t;
            assert(hs[a] == cands[k]);
        }
    }
}

/// `path` is the path of a hashed file with this size and hash.
pub open spec fn hashed_with(files: Seq<FileEntry>, cands: Seq<int>, h: Seq<Option<Seq<char>>>,
    path: Seq<char>, size: u64, hash: Seq<char>) -> bool {
    exists|k: int| #![trigger files[cands[k]]] 0 <= k < cands.len() && h[k] == Some(hash)
        && files[cands[k]].size == size && files[cands[k]].path@ == path
}

/// The reported groups are exactly the duplicates: each holds two or more
/// paths, each the path of a hashed file of the group's size and hash; and
/// any two hashed files of equal size and equal hash are in one group.
pub proof fn lemma_groups_are_duplicates(gs: Seq<DupeGroup>, files: Seq<FileEntry>, cands: Seq<int>, h: Seq<Option<Seq<char>>>)
    requires
        groups_match(gs, files, cands, h),
        cands.len() == h.len(),
    ensures
        forall|t: int| 0 <= t < gs.len() ==> (#[trigger] gs[t]).paths@.len() >= 2,
        forall|t: int, q: int| #![trigger gs[t].paths@[q]] 0 <= t < gs.len() && 0 <= q < gs[t].paths@.len()
            ==> hashed_with(files, cands, h, gs[t].paths@[q]@, gs[t].size, gs[t].hash@),
        forall|k1: int, k2: int| 0 <= k1 < cands.len() && 0 <= k2 < cands.len() && k1 != k2
            && h[k1] is Some && #[trigger] h[k1] == #[trigger] h[k2] && files[cands[k1]].size == files[cands[k2]].size
            ==> exists|t: int| 0 <= t < gs.len() && strs(gs[t].paths@).contains(files[cands[k1]].path@)
                && #[trigger] strs(gs[t].paths@).contains(files[cands[k2]].path@),
{
    let p = present_all(h);
    let hk = hashed_keys(files, cands, h);
    let cls = classes_of(hk);
    let dc = dupe_classes(files, cands, h);
    lemma_present(h, h.len() as int);
    lemma_class_keys(hk);
    lemma_big_classes(cls);
    lemma_classes_partition(hk);
    assert(hk.len() == p.len());
    assert forall|t: int| 0 <= t < gs.len() implies (#[trigger] gs[t]).paths@.len() >= 2
        && forall|q: int| #![trigger gs[t].paths@[q]] 0 <= q < gs[t].paths@.len()
            ==> hashed_with(files, cands, h, gs[t].paths@[q]@, gs[t].size, gs[t].hash@) by {
        let c = choose|c: int| 0 <= c < dc.len() && group_of_class(gs[t], files, cands, h, dc[c]);
        let x = dc[c];
        assert(dc.contains(x));
        assert(cls.contains(x) && x.len() >= 2);
        let cp = class_paths(files, cands, h, x);
        let sp = strs(gs[t].paths@);
        sp.to_multiset_ensures();
        cp.to_multiset_ensures();
        assert(sp.len() == cp.len());
        assert forall|q: int| #![trigger gs[t].paths@[q]] 0 <= q < gs[t].paths@.len()
            implies hashed_with(files, cands, h, gs[t].paths@[q]@, gs[t].size, gs[t].hash@) by {
            assert(sp[q] == gs[t].paths@[q]@);
            assert(sp.contains(sp[q]));
            assert(sp.to_multiset() == cp.to_multiset());
            assert(sp.to_multiset().count(sp[q]) > 0);
            assert(cp.to_multiset().count(sp[q]) > 0);
            assert(cp.contains(sp[q]));
            let r = choose|r: int| 0 <= r < cp.len() && cp[r] == sp[q];
            let m = x[r];
            assert(x.contains(m));
            let k = p[m];
            assert(h[k] is Some);
            assert(hk[m] == hk[x[0]]);
            assert(files[cands[k]].path@ == sp[q]);
            assert(h[k] == Some(gs[t].hash@));
        }
    }
    assert forall|k1: int, k2: int| 0 <= k1 < cands.len() && 0 <= k2 < cands.len() && k1 != k2
        && h[k1] is Some && #[trigger] h[k1] == #[trigger] h[k2] && files[cands[k1]].size == files[cands[k2]].size
        implies exists|t: int| 0 <= t < gs.len() && strs(gs[t].paths@).contains(files[cands[k1]].path@)
            && #[trigger] strs(gs[t].paths@).contains(files[cands[k2]].path@) by {
        assert(p.contains(k1) && p.contains(k2));
        let t1 = choose|t1: int| 0 <= t1 < p.len() && p[t1] == k1;
        let t2 = choose|t2: int| 0 <= t2 < p.len() && p[t2] == k2;
        assert(t1 != t2);
        assert(hk[t1] == hk[t2]);
        let d = distinct_keys(hk, hk.len() as int);
        let c = choose|c: int| 0 <= c < cls.len() && #[trigger] d[c] == hk[t1];
        let x = cls[c];
        assert(x.contains(t1) && x.contains(t2));
        let i1 = choose|i: int| 0 <= i < x.len() && x[i] == t1;
        let i2 = choose|i: int| 0 <= i < x.len() && x[i] == t2;
        assert(i1 != i2);
        assert(cls.contains(x));
        assert(dc.contains(x));
        let cc = choose|cc: int| 0 <= cc < dc.len() && dc[cc] == x;
        let t = choose|t: int| 0 <= t < gs.len() && group_of_class(gs[t], files, cands, h, #[trigger] dc[cc]);
        let cp = class_paths(files, cands, h, x);
        let sp = strs(gs[t].paths@);
        sp.to_multiset_ensures();
        cp.to_multiset_ensures();
        assert(cp[i1] == files[cands[k1]].path@);
        assert(cp[i2] == files[cands[k2]].path@);
        assert(cp.contains(cp[i1]) && cp.contains(cp[i2]));
        assert(sp.to_multiset() == cp.to_multiset());
        assert(cp.to_multiset().count(cp[i1]) > 0 && cp.to_multiset().count(cp[i2]) > 0);
        assert(sp.to_multiset().count(cp[i1]) > 0 && sp.to_multiset().count(cp[i2]) > 0);
        assert(sp.contains(files[cands[k1]].path@));
        assert(sp.contains(files[cands[k2]].path@));
    }
}

/// The reported groups come most reclaimable first: no group reclaims more
/// bytes than a group listed before it, and groups that reclaim as many
/// bytes come in the character order of their hashes.
pub proof fn lemma_groups_most_reclaimable_first(gs: Seq<DupeGroup>, files: Seq<FileEntry>, cands: Seq<int>, h: Seq<Option<Seq<char>>>)
    requires
        groups_match(gs, files, cands, h),
    ensures
        forall|a: int, b: int| 0 <= a < b < gs.len() ==> {
            let ra = reclaimable(gs[a].size, gs[a].paths@.len());
            let rb = reclaimable(gs[b].size, gs[b].paths@.len());
            &&& ra >= rb
            &&& ra == rb ==> lex_le(codes(#[trigger] gs[a].hash@), codes(#[trigger] gs[b].hash@))
        },
{
    assert forall|a: int, b: int| 0 <= a < b < gs.len() implies {
        let ra = reclaimable(gs[a].size, gs[a].paths@.len());
        let rb = reclaimable(gs[b].size, gs[b].paths@.len());
        &&& ra >= rb
        &&& ra == rb ==> lex_le(codes(#[trigger] gs[a].hash@), codes(#[trigger] gs[b].hash@))
    } by {
        let ra = reclaimable(gs[a].size, gs[a].paths@.len());
        let rb = reclaimable(gs[b].size, gs[b].paths@.len());
        let xa = u64::MAX - ra;
        let xb = u64::MAX - rb;
        let ca = codes(gs[a].hash@);
        let cb = codes(gs[b].hash@);
        assert(group_key(gs[a]) =~= seq![xa] + ca);
        assert(group_key(gs[b]) =~= seq![xb] + cb);
        assert(lex_le(group_key(gs[a]), group_key(gs[b])));
        lemma_lex_cons(xa, ca, xb, cb);
        if group_key(gs[a]) == group_key(gs[b]) {
            assert((seq![xa] + ca)[0] == (seq![xb] + cb)[0]);
            assert(ca =~= (seq![xa] + ca).drop_first());
            assert(cb =~= (seq![xb] + cb).drop_first());
        }
    }
}

/// The positions of the hashed candidates and their keys.
fn hashed_keys_exec(files: &Vec<FileEntry>, cands: &Vec<usize>, hashes: &Vec<Option<String>>) -> (r: (Vec<usize>, Vec<(u64, String)>))
    requires
        hashes@.len() == cands@.len(),
        forall|k: int| 0 <= k < cands@.len() ==> (#[trigger] cands@[k]) < files@.len(),
    ensures
        r.0@.map_values(|t: usize| t as int) == present_all(opt_views(hashes@)),
        key_views(r.1@) == hashed_keys(files@, cands@.map_values(|i: usize| i as int), opt_views(hashes@)),
{
    let ghost h = opt_views(hashes@);
    let ghost cv = cands@.map_values(|i: usize| i as int);
    let mut pos: Vec<usize> = Vec::new();
    let mut keys: Vec<(u64, String)> = Vec::new();
    let mut k: usize = 0;
    while k < hashes.len()
        invariant
            h == opt_views(hashes@),
            cv == cands@.map_values(|i: usize| i as int),
            hashes@.len() == cands@.len(),
            forall|q: int| 0 <= q < cands@.len() ==> (#[trigger] cands@[q]) < files@.len(),
            k <= hashes@.len(),
            pos@.map_values(|t: usize| t as int) == present(h, k as int),
            key_views(keys@) =~= Seq::new(present(h, k as int).len(),
                |t: int| (files@[cv[present(h, k as int)[t]]].size, h[present(h, k as int)[t]]->Some_0)),
        decreases hashes@.len() - k,
    {
        match &hashes[k] {
            Some(hs) => {
                let ghost pb = pos@;
                let ghost kb = keys@;
                pos.push(k);
                keys.push((files[cands[k]].size, hs.clone()));
                proof {
                    assert(pos@.map_values(|t: usize| t as int) =~= pb.map_values(|t: usize| t as int).push(k as int));
                    assert(present(h, k + 1) =~= present(h, k as int).push(k as int));
                    assert(h[k as int] == Some(hs@));
                    assert(key_views(keys@) =~= key_views(kb).push((files@[cands@[k as int] as int].size, hs@)));
                }
            },
            None => {
                proof {
                    assert(present(h, k + 1) =~= present(h, k as int));
                }
            },
        }
        k = k + 1;
    }
    (pos, keys)
}

impl CascadeRun {
    /// Takes the sample hashes of the pending files (in the order they were
    /// named; `None` where a file could not be read) and keeps, for full
    /// hashing, the files that share size and sample hash with another.
    /// Files that could not be hashed drop out.
    pub fn supply_sample_hashes(&mut self, hashes: Vec<Option<String>>)
        requires
            old(self).wf(),
            old(self).spec_stage() == CascadeStage::Sampling,
            hashes@.len() == old(self).spec_pending().len(),
        ensures
            final(self).wf(),
            final(self).input() == old(self).input(),
            final(self).spec_sample_size() == old(self).spec_sample_size(),
            final(self).spec_groups() == old(self).spec_groups(),
            final(self).spec_identity_groups() == old(self).spec_identity_groups(),
            final(self).spec_pending() == hash_survivors(old(self).input(), old(self).spec_pending(), opt_views(hashes@)),
            final(self).spec_stats() == (CascadeStats {
                sample_hashed: old(self).spec_pending().len() as usize,
                unique_sample_files: (present_all(opt_views(hashes@)).len()
                    - hash_survivors(old(self).input(), old(self).spec_pending(), opt_views(hashes@)).len()) as usize,
                ..old(self).spec_stats()
            }),
            final(self).spec_stage() == (if hash_survivors(old(self).input(), old(self).spec_pending(), opt_views(hashes@)).len() == 0 {
                CascadeStage::Finished
            } else {
                CascadeStage::FullHashing
            }),
    {
        let ghost h = opt_views(hashes@);
        let ghost cv = self.spec_pending();
        let ghost files = self.files@;
        let (pos, keys) = hashed_keys_exec(&self.files, &self.pending, &hashes);
        let classes = group_by_key(&keys);
        let surv = flatten_big_exec(&classes, Ghost(hashed_keys(files, cv, h)));
        proof {
            lemma_flatten_big(hashed_keys(files, cv, h));
            lemma_present(h, h.len() as int);
        }
        let ghost fb = flatten_big(classes_of(hashed_keys(files, cv, h)));
        let ghost p = present_all(h);
        let mut next: Vec<usize> = Vec::new();
        let mut u: usize = 0;
        while u < surv.len()
            invariant
                fb == flatten_big(classes_of(hashed_keys(files, cv, h))),
                p == present_all(h),
                surv@.map_values(|j: usize| j as int) == fb,
                pos@.map_values(|t: usize| t as int) == p,
                forall|t: int| #[trigger] fb.contains(t) ==> 0 <= t < p.len(),
                forall|t: int| 0 <= t < p.len() ==> 0 <= #[trigger] p[t] < h.len(),
                cv == self.pending@.map_values(|i: usize| i as int),
                h.len() == cv.len(),
                u <= surv@.len(),
                next@.map_values(|i: usize| i as int) =~= fb.take(u as int).map_values(|t: int| hashed_file(cv, h, t)),
            decreases surv@.len() - u,
        {
            let t = surv[u];
            proof {
                assert(fb[u as int] == t as int);
                assert(fb.contains(t as int));
                assert(hashed_keys(files, cv, h).len() == p.len());
            }
            let k = pos[t];
            assert(p[t as int] == k as int);
            let f = self.pending[k];
            let ghost nb = next@;
            next.push(f);
            proof {
                assert(next@.map_values(|i: usize| i as int) =~= nb.map_values(|i: usize| i as int).push(f as int));
                assert(fb.take(u + 1) =~= fb.take(u as int).push(t as int));
            }
            u = u + 1;
        }
        proof {
            assert(fb.take(u as int) =~= fb);
            let hk = hashed_keys(files, cv, h);
            assert(hk.len() == p.len());
            let nv = next@.map_values(|i: usize| i as int);
            // the survivors are distinct files of the input
            assert forall|a: int, b: int| 0 <= a < nv.len() && 0 <= b < nv.len() && a != b implies nv[a] != nv[b] by {
                assert(fb.contains(fb[a]) && fb.contains(fb[b]));
                assert(fb[a] != fb[b]);
                assert(p[fb[a]] != p[fb[b]]) by {
                    if p[fb[a]] == p[fb[b]] {
                        assert(p.no_duplicates());
                    }
                }
                assert(cv[p[fb[a]]] != cv[p[fb[b]]]);
            }
        }
        self.stats.sample_hashed = self.pending.len();
        self.stats.unique_sample_files = pos.len() - next.len();
        self.stage = if next.len() == 0 { CascadeStage::Finished } else { CascadeStage::FullHashing };
        self.pending = next;
        proof {
            assert forall|q: int| 0 <= q < self.pending@.len() implies (#[trigger] self.pending@[q]) < self.files@.len() by {
                let t = fb[q];
                assert(fb.contains(t));
                assert(self.pending@.map_values(|i: usize| i as int)[q] == self.pending@[q] as int);
                assert(fb.map_values(|t: int| hashed_file(cv, h, t))[q] == hashed_file(cv, h, t));
                assert(self.pending@[q] as int == cv[p[t]]);
                assert(old(self).pending@[p[t]] < old(self).files@.len());
            }
        }
    }
}

/// The report-order key of a group, computed.
fn group_key_of(g: &DupeGroup) -> (k: Vec<u64>)
    ensures
        ints(k@) == group_key(*g),
{
    let r = g.reclaimable_bytes();
    let mut k: Vec<u64> = Vec::new();
    k.push(u64::MAX - r);
    let cs = chars_of(g.hash.as_str());
    let mut i: usize = 0;
    while i < cs.len()
        invariant
            i <= cs@.len(),
            cs@ == g.hash@,
            ints(k@) =~= seq![(u64::MAX - reclaimable(g.size, g.paths@.len())) as int]
                + cs@.take(i as int).map_values(|c: char| (c as u32) as int),
        decreases cs@.len() - i,
    {
        let c = cs[i] as u32;
        let ghost kb = k@;
        k.push(c as u64);
        proof {
            assert(ints(k@) =~= ints(kb).push(c as int));
            assert(cs@.take(i + 1) =~= cs@.take(i as int).push(cs@[i as int]));
        }
        i = i + 1;
    }
    proof {
        assert(cs@.take(i as int) =~= cs@);
    }
    k
}

/// The paths of the files of one class.
fn class_paths_exec(files: &Vec<FileEntry>, cands: &Vec<usize>, pos: &Vec<usize>, cls: &Vec<usize>,
    Ghost(h): Ghost<Seq<Option<Seq<char>>>>) -> (r: Vec<String>)
    requires
        pos@.map_values(|t: usize| t as int) == present_all(h),
        forall|t: int| 0 <= t < pos@.len() ==> (#[trigger] pos@[t]) < cands@.len(),
        forall|k: int| 0 <= k < cands@.len() ==> (#[trigger] cands@[k]) < files@.len(),
        forall|m: int| 0 <= m < cls@.len() ==> (#[trigger] cls@[m]) < pos@.len(),
    ensures
        strs(r@) == class_paths(files@, cands@.map_values(|i: usize| i as int), h, cls@.map_values(|j: usize| j as int)),
{
    let ghost cv = cands@.map_values(|i: usize| i as int);
    let ghost cl = cls@.map_values(|j: usize| j as int);
    let mut r: Vec<String> = Vec::new();
    let mut m: usize = 0;
    while m < cls.len()
        invariant
            pos@.map_values(|t: usize| t as int) == present_all(h),
            forall|t: int| 0 <= t < pos@.len() ==> (#[trigger] pos@[t]) < cands@.len(),
            forall|k: int| 0 <= k < cands@.len() ==> (#[trigger] cands@[k]) < files@.len(),
            forall|q: int| 0 <= q < cls@.len() ==> (#[trigger] cls@[q]) < pos@.len(),
            cv == cands@.map_values(|i: usize| i as int),
            cl == cls@.map_values(|j: usize| j as int),
            m <= cls@.len(),
            strs(r@) =~= class_paths(files@, cv, h, cl.take(m as int)),
        decreases cls@.len() - m,
    {
        let t = cls[m];
        let k = pos[t];
        let f = cands[k];
        let path = files[f].path.clone();
        let ghost rb = r@;
        r.push(path);
        proof {
            assert(present_all(h)[t as int] == k as int);
            assert(strs(r@) =~= strs(rb).push(files@[f as int].path@));
            assert(cl.take(m + 1) =~= cl.take(m as int).push(t as int));
        }
        m = m + 1;
    }
    proof {
        assert(cl.take(m as int) =~= cl);
    }
    r
}

impl CascadeRun {
    /// Takes the full hashes of the pending files (in the order they were
    /// named; `None` where a file could not be read) and forms the
    /// duplicate groups: files of equal size and full hash, two or more,
    /// each group's paths in path order, the groups most reclaimable first
    /// and then by hash.
    pub fn supply_full_hashes(&mut self, hashes: Vec<Option<String>>)
        requires
            old(self).wf(),
            old(self).spec_stage() == CascadeStage::FullHashing,
            hashes@.len() == old(self).spec_pending().len(),
        ensures
            final(self).wf(),
            final(self).input() == old(self).input(),
            final(self).spec_sample_size() == old(self).spec_sample_size(),
            final(self).spec_identity_groups() == old(self).spec_identity_groups(),
            final(self).spec_stage() == CascadeStage::Finished,
            final(self).spec_pending().len() == 0,
            groups_match(final(self).spec_groups(), old(self).input(), old(self).spec_pending(), opt_views(hashes@)),
            final(self).spec_stats() == (CascadeStats {
                fully_hashed: old(self).spec_pending().len() as usize,
                duplicate_groups: dupe_classes(old(self).input(), old(self).spec_pending(), opt_views(hashes@)).len() as usize,
                duplicate_files: flatten_big(classes_of(hashed_keys(old(self).input(), old(self).spec_pending(), opt_views(hashes@)))).len() as usize,
                reclaimable_bytes: saturate(reclaim_sum(hashed_keys(old(self).input(), old(self).spec_pending(), opt_views(hashes@)),
                    dupe_classes(old(self).input(), old(self).spec_pending(), opt_views(hashes@)))),
                ..old(self).spec_stats()
            }),
    {
        let ghost h = opt_views(hashes@);
        let ghost cv = self.spec_pending();
        let ghost files = self.files@;
        let ghost hk = hashed_keys(files, cv, h);
        let (pos, keys) = hashed_keys_exec(&self.files, &self.pending, &hashes);
        let classes = group_by_key(&keys);
        let ghost cls = classes_of(hk);
        proof {
            lemma_flatten_big(hk);
            lemma_present(h, h.len() as int);
            lemma_class_keys(hk);
            lemma_big_classes(cls);
            lemma_flatten_big_take(cls, cls.len() as int);
            assert(hk.len() == present_all(h).len());
            assert forall|t: int| 0 <= t < pos@.len() implies (#[trigger] pos@[t]) < self.pending@.len() by {
                assert(pos@.map_values(|q: usize| q as int)[t] == present_all(h)[t]);
            }
        }
        let nkeys = keys.len();
        let mut list: Vec<(Vec<u64>, DupeGroup)> = Vec::new();
        let mut ngroups: usize = 0;
        let mut nfiles: usize = 0;
        let mut reclaim: u64 = 0;
        let mut c: usize = 0;
        while c < classes.len()
            invariant
                hk == hashed_keys(files, cv, h),
                cls == classes_of(hk),
                files == self.files@,
                cv == self.pending@.map_values(|i: usize| i as int),
                self.wf(),
                h.len() == cv.len(),
                key_views(keys@) == hk,
                pos@.map_values(|t: usize| t as int) == present_all(h),
                forall|t: int| 0 <= t < pos@.len() ==> (#[trigger] pos@[t]) < self.pending@.len(),
                classes@.len() == cls.len(),
                forall|e: int| 0 <= e < classes@.len()
                    ==> (#[trigger] classes@[e])@.map_values(|j: usize| j as int) == cls[e],
                forall|x: Seq<int>| #[trigger] cls.contains(x) ==> x.len() >= 1
                    && (forall|m: int| #[trigger] x.contains(m) <==> (0 <= m < hk.len() && hk[m] == hk[x[0]])),
                flatten_big(cls).len() <= hk.len(),
                hk.len() == keys@.len(),
                nkeys == keys@.len(),
                c <= classes@.len(),
                list@.len() == big_classes(cls.take(c as int)).len(),
                forall|t: int| 0 <= t < list@.len() ==> {
                    &&& group_of_class((#[trigger] list@[t]).1, files, cv, h, big_classes(cls.take(c as int))[t])
                    &&& key_of(list@[t]) == group_key(list@[t].1)
                },
                ngroups == list@.len(),
                nfiles == flatten_big(cls.take(c as int)).len(),
                reclaim == saturate(reclaim_sum(hk, big_classes(cls.take(c as int)))),
            decreases classes@.len() - c,
        {
            proof {
                assert(cls.take(c + 1).drop_last() =~= cls.take(c as int));
                assert(cls.take(c + 1).last() == cls[c as int]);
                lemma_flatten_big_take(cls, c + 1);
                assert(cls.contains(cls[c as int]));
                assert(classes@[c as int]@.len() == cls[c as int].len());
                if cls[c as int].len() >= 2 {
                    assert(flatten_big(cls.take(c + 1)) =~= flatten_big(cls.take(c as int)) + cls[c as int]);
                } else {
                    assert(flatten_big(cls.take(c + 1)) =~= flatten_big(cls.take(c as int)));
                    assert(big_classes(cls.take(c + 1)) =~= big_classes(cls.take(c as int)));
                }
            }
            if classes[c].len() >= 2 {
                proof {
                    let cl = cls[c as int];
                    assert forall|m: int| 0 <= m < classes@[c as int]@.len() implies (#[trigger] classes@[c as int]@[m]) < pos@.len() by {
                        assert(classes@[c as int]@.map_values(|j: usize| j as int)[m] == cl[m]);
                        assert(cl.contains(cl[m]));
                    }
                }
                let paths = class_paths_exec(&self.files, &self.pending, &pos, &classes[c], Ghost(h));
                let sorted = sort_paths(paths);
                let first = classes[c][0];
                let size = keys[first].0;
                let hash = keys[first].1.clone();
                let group = DupeGroup { size, hash, paths: sorted };
                let key = group_key_of(&group);
                let r = group.reclaimable_bytes();
                proof {
                    let cl = cls[c as int];
                    assert(classes@[c as int]@.map_values(|j: usize| j as int)[0] == cl[0]);
                    assert(hk[cl[0]] == (keys@[first as int].0, keys@[first as int].1@));
                    assert(strs(group.paths@).len() == cl.len()) by {
                        strs(group.paths@).to_multiset_ensures();
                        class_paths(files, cv, h, cl).to_multiset_ensures();
                    }
                    assert(group_of_class(group, files, cv, h, cl));
                }
                let ghost lb = list@;
                let ghost reclaim0 = reclaim;
                list.push((key, group));
                ngroups = list.len();
                nfiles = nfiles + classes[c].len();
                reclaim = match reclaim.checked_add(r) {
                    Some(v) => v,
                    None => u64::MAX,
                };
                proof {
                    let bc1 = big_classes(cls.take(c + 1));
                    let bc0 = big_classes(cls.take(c as int));
                    assert(bc1 =~= bc0.push(cls[c as int]));
                    assert(bc1.drop_last() =~= bc0);
                    assert(reclaim_sum(hk, bc1) == reclaim_sum(hk, bc0) + r as int);
                    lemma_reclaim_sum_nonneg(hk, bc0);
                    assert(reclaim == saturate(reclaim_sum(hk, bc1)));
                    assert forall|t: int| 0 <= t < list@.len() implies {
                        &&& group_of_class((#[trigger] list@[t]).1, files, cv, h, bc1[t])
                        &&& key_of(list@[t]) == group_key(list@[t].1)
                    } by {
                        if t < lb.len() {
                            assert(list@[t] == lb[t]);
                        }
                    }
                }
            }
            c = c + 1;
        }
        proof {
            assert(cls.take(c as int) =~= cls);
        }
        let ghost input_list = list@;
        let sorted = sort_keyed(list);
        let ghost sv = sorted@;
        let groups = values_of(sorted);
        proof {
            let dc = big_classes(cls);
            assert(dc == dupe_classes(files, cv, h));
            sv.to_multiset_ensures();
            input_list.to_multiset_ensures();
            assert(sv.len() == input_list.len());
            // every reported group is the group of a class
            assert forall|t: int| 0 <= t < groups@.len() implies exists|e: int| 0 <= e < dc.len()
                && group_of_class(#[trigger] groups@[t], files, cv, h, dc[e]) by {
                assert(groups@[t] == sv[t].1);
                assert(sv.contains(sv[t]));
                assert(sv.to_multiset().count(sv[t]) > 0);
                assert(input_list.contains(sv[t]));
                let e = choose|e: int| 0 <= e < input_list.len() && input_list[e] == sv[t];
                assert(group_of_class(input_list[e].1, files, cv, h, dc[e]));
            }
            // every class has its group
            assert forall|e: int| 0 <= e < dc.len() implies exists|t: int| 0 <= t < groups@.len()
                && group_of_class(groups@[t], files, cv, h, #[trigger] dc[e]) by {
                assert(input_list.contains(input_list[e]));
                assert(input_list.to_multiset().count(input_list[e]) > 0);
                assert(sv.contains(input_list[e]));
                let t = choose|t: int| 0 <= t < sv.len() && sv[t] == input_list[e];
                assert(groups@[t] == sv[t].1);
            }
            // classes' groups differ in size or hash
            assert(cls.no_duplicates());
            assert(dc.no_duplicates());
            assert forall|a: int, b: int| 0 <= a < input_list.len() && 0 <= b < input_list.len() && a != b implies
                (input_list[a].1.size, input_list[a].1.hash@) != (input_list[b].1.size, input_list[b].1.hash@) by {
                assert(dc.contains(dc[a]) && dc.contains(dc[b]));
                assert(cls.contains(dc[a]) && cls.contains(dc[b]));
                assert(dc[a] != dc[b]);
                assert(hk[dc[a][0]] != hk[dc[b][0]]);
            }
            assert(input_list.no_duplicates());
            input_list.lemma_multiset_has_no_duplicates();
            assert forall|x: (Vec<u64>, DupeGroup)| sv.to_multiset().contains(x) implies sv.to_multiset().count(x) == 1 by {
                assert(input_list.to_multiset().contains(x));
            }
            sv.lemma_multiset_has_no_duplicates_conv();
            assert forall|a: int, b: int| 0 <= a < groups@.len() && 0 <= b < groups@.len() && a != b implies
                (#[trigger] groups@[a].size, groups@[a].hash@) != (#[trigger] groups@[b].size, groups@[b].hash@) by {
                assert(sv.to_multiset().count(sv[a]) > 0);
                assert(sv.to_multiset().count(sv[b]) > 0);
                assert(input_list.contains(sv[a]));
                assert(input_list.contains(sv[b]));
                let ea = choose|e: int| 0 <= e < input_list.len() && input_list[e] == sv[a];
                let eb = choose|e: int| 0 <= e < input_list.len() && input_list[e] == sv[b];
                assert(sv[a] != sv[b]);
            }
            // report order
            assert forall|k: int| 0 <= k < sv.len() implies key_of(#[trigger] sv[k]) == group_key(sv[k].1) by {
                assert(sv.to_multiset().count(sv[k]) > 0);
                assert(input_list.contains(sv[k]));
            }
            assert forall|a: int, b: int| 0 <= a < b < groups@.len() implies
                lex_le(#[trigger] group_key(groups@[a]), #[trigger] group_key(groups@[b])) by {
                assert(kle(sv[a], sv[b]));
            }
        }
        self.stats.fully_hashed = self.pending.len();
        self.stats.duplicate_groups = ngroups;
        self.stats.duplicate_files = nfiles;
        self.stats.reclaimable_bytes = reclaim;
        self.stage = CascadeStage::Finished;
        self.pending = Vec::new();
        self.groups = groups;
        proof {
            assert(self.spec_pending() =~= Seq::<int>::empty());
        }
    }

    /// The groups and counters of a finished cascade.
    pub fn finish(self) -> (r: (Vec<DupeGroup>, CascadeStats))
        requires
            self.spec_stage() == CascadeStage::Finished,
        ensures
            r.0@ == self.spec_groups(),
            r.1 == self.spec_stats(),
    {
        (self.groups, self.stats)
    }

    /// The report of a finished cascade.
    pub fn into_report(self) -> (r: ScanReport)
        requires
            self.spec_stage() == CascadeStage::Finished,
        ensures
            r.duplicate_groups@ == self.spec_groups(),
            r.identity_groups@ == self.spec_identity_groups(),
            r.stats == self.spec_stats(),
    {
        ScanReport { duplicate_groups: self.groups, identity_groups: self.identity_groups, stats: self.stats }
    }
}

impl CascadeRun {
    /// Records the identity groups found before the cascade: their extra
    /// paths count as scanned files, though never compared.
    pub fn record_identity(&mut self, groups: Vec<IdentityGroup>, extra_paths: usize)
        requires
            old(self).spec_stats().files_scanned + extra_paths <= usize::MAX,
        ensures
            final(self).wf() == old(self).wf(),
            final(self).input() == old(self).input(),
            final(self).spec_sample_size() == old(self).spec_sample_size(),
            final(self).spec_stage() == old(self).spec_stage(),
            final(self).spec_pending() == old(self).spec_pending(),
            final(self).spec_groups() == old(self).spec_groups(),
            final(self).spec_identity_groups() == groups@,
            final(self).spec_stats() == (CascadeStats {
                files_scanned: (old(self).spec_stats().files_scanned + extra_paths) as usize,
                identity_groups: groups@.len() as usize,
                identity_files_skipped: extra_paths,
                ..old(self).spec_stats()
            }),
    {
        self.stats.files_scanned = self.stats.files_scanned + extra_paths;
        self.stats.identity_groups = groups.len();
        self.stats.identity_files_skipped = extra_paths;
        self.identity_groups = groups;
    }
}
} // verus!
