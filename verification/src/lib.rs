//! Duplicate-file detection: a size, sample-hash and full-hash cascade,
//! identity grouping and a safe deletion plan.
use vstd::prelude::*;

pub mod lex;
pub mod sort;
pub mod text;
pub mod paths;
pub mod model;
pub mod keep;
pub mod grouping;
pub mod cascade;
pub mod identity;
pub mod manifest;
pub mod delete;
pub mod hashing;
pub mod walk;

use crate::cascade::{CascadeRun, run_cascade, size_survivors, CascadeStage, DEFAULT_SAMPLE_SIZE};
use crate::grouping::{big_classes, extra_members, extra_of, lemma_extra_of_big, lemma_extra_members, lemma_big_classes, lemma_extra_of_take};
use crate::identity::{split_by_identity, split_result, identity_classes, identity_grouping_keys, resolved, unresolved, keyed};
use crate::model::{FileEntry, CascadeStats};

verus! {

proof fn lemma_keyed_split(keys: Seq<Option<u64>>, upto: int)
    requires
        0 <= upto <= keys.len(),
    ensures
        keyed(keys, true, upto).len() + keyed(keys, false, upto).len() == upto,
    decreases upto,
{
    if upto > 0 {
        lemma_keyed_split(keys, upto - 1);
    }
}

/// Start a scan of walked files: split off files that are the same
/// underlying file (equal identity keys; see [`identity`]), then start the
/// size/sample/hash cascade over what remains. Every walked file counts as
/// scanned.
pub fn scan(files: Vec<FileEntry>, identity_keys: Vec<Option<u64>>, sample_size: Option<u64>) -> (run: CascadeRun)
    requires
        identity_keys@.len() == files@.len(),
    ensures
        run.wf(),
        split_result(files@, identity_keys@, run.spec_identity_groups(), run.input()),
        run.spec_sample_size() == (match sample_size {
            Some(s) => s,
            None => DEFAULT_SAMPLE_SIZE,
        }),
        run.spec_pending() == size_survivors(run.input()),
        run.spec_stats() == (CascadeStats {
            files_scanned: files@.len() as usize,
            identity_groups: big_classes(identity_classes(identity_keys@)).len() as usize,
            identity_files_skipped: extra_members(identity_classes(identity_keys@)) as usize,
            unique_size_files: (run.input().len() - size_survivors(run.input()).len()) as usize,
            size_candidate_files: size_survivors(run.input()).len() as usize,
            ..CascadeStats::spec_zero()
        }),
        run.spec_stage() == (if size_survivors(run.input()).len() == 0 {
            CascadeStage::Finished
        } else {
            CascadeStage::Sampling
        }),
        run.spec_groups().len() == 0,
{
    let ghost kv = identity_keys@;
    let n = files.len();
    let (groups, reps) = split_by_identity(files, identity_keys);
    let ghost cls = identity_classes(kv);
    let ghost big = big_classes(cls);
    proof {
        lemma_extra_of_big(cls);
        lemma_extra_members(identity_grouping_keys(kv));
        lemma_keyed_split(kv, kv.len() as int);
        assert(identity_grouping_keys(kv).len() == resolved(kv).len());
        lemma_big_classes(cls);
        assert forall|y: int| 0 <= y < big.len() implies (#[trigger] big[y]).len() >= 2 by {
            assert(big.contains(big[y]));
        }
        assert forall|y: int| 0 <= y < groups@.len() implies (#[trigger] groups@[y]).paths@.len() == big[y].len() by {
            assert(model::strs(groups@[y].paths@).len() == groups@[y].paths@.len());
        }
        assert forall|y: int| 0 <= y <= big.len() implies extra_of(#[trigger] big.take(y)) <= extra_of(big) by {
            lemma_extra_of_take(big, y);
        }
    }
    let mut extra: usize = 0;
    let mut x: usize = 0;
    while x < groups.len()
        invariant
            groups@.len() == big.len(),
            forall|y: int| 0 <= y < groups@.len() ==> (#[trigger] groups@[y]).paths@.len() == big[y].len(),
            forall|y: int| 0 <= y < big.len() ==> (#[trigger] big[y]).len() >= 2,
            x <= groups@.len(),
            extra == extra_of(big.take(x as int)),
            extra_of(big) <= n,
            forall|y: int| 0 <= y <= big.len() ==> extra_of(#[trigger] big.take(y)) <= extra_of(big),
        decreases groups@.len() - x,
    {
        proof {
            assert(big.take(x + 1).drop_last() =~= big.take(x as int));
            assert(extra_of(big.take(x + 1)) <= extra_of(big));
        }
        extra = extra + (groups[x].paths.len() - 1);
        x = x + 1;
    }
    proof {
        assert(big.take(x as int) =~= big);
        assert(extra == extra_members(cls));
        assert(reps@.len() + extra == n);
    }
    let mut run = run_cascade(reps, sample_size);
    run.record_identity(groups, extra);
    run
}

} // verus!
